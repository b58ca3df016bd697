//! Bulk operations on any number of storages of one component type.
//!
//! The storages come as one list: the first of them are the targets of
//! the operation, the others are passed beside the targets because a
//! target is packed with them or observed by them.

use crate::add_component::real_types;
use crate::entities::Entities;
use crate::entity_id::EntityId;
use crate::error;
use crate::model::Model;
use crate::pack::{
    contains_id, covered, lemma_packable_by_members, lemma_shape_by_members, pack_step, sort_ids,
    unpack_step, PackKind,
};
use crate::packing::{
    lemma_insert_prefix, lemma_pack_prefix, lemma_prefix_member, lemma_remove_prefix,
    lemma_swap_removed_members, lemma_unpack_prefix, slot_free_for, swap_removed,
};
use crate::sparse_set::{old_component, OldComponent, SparseSet};
use crate::storage_id::StorageId;
use vstd::prelude::*;

verus! {

/// The ids of the storages from position `from` up to `to`.
pub open spec fn ids_between<T>(storages: Seq<SparseSet<T>>, from: int, to: int) -> Seq<StorageId> {
    Seq::new((to - from) as nat, |k: int| storages[from + k].storage_id())
}

/// For each storage behind the first `targets`, its id and whether it
/// holds `entity`.
pub open spec fn beside_holding<T>(storages: Seq<SparseSet<T>>, targets: int, entity: EntityId) -> Seq<
    (StorageId, bool),
> {
    Seq::new(
        (storages.len() - targets) as nat,
        |k: int| (storages[targets + k].storage_id(), storages[targets + k].has(entity)),
    )
}

/// The storages that hold `entity` for sure once the targets have taken
/// their components.
pub open spec fn held_ids<T>(storages: Seq<SparseSet<T>>, targets: int, entity: EntityId) -> Seq<
    StorageId,
> {
    real_types(ids_between(storages, 0, targets), beside_holding(storages, targets, entity))
}

/// The first of the first `upto` targets that misses a storage that its
/// pack metadata names among those passed.
pub open spec fn first_missing<T>(storages: Seq<SparseSet<T>>, targets: int, upto: int) -> Option<
    StorageId,
>
    decreases upto,
{
    if upto <= 0 {
        None
    } else {
        match first_missing(storages, targets, upto - 1) {
            Some(id) => Some(id),
            None => if storages[upto - 1].pack_view().shape().all_storages_in(
                ids_between(storages, 0, targets),
                ids_between(storages, targets, storages.len() as int),
            ) {
                None
            } else {
                Some(storages[upto - 1].storage_id())
            },
        }
    }
}

/// The storages to pack after the first `upto` targets were asked, for an
/// entity found in the storages `held`.
pub open spec fn should_pack<T>(storages: Seq<SparseSet<T>>, held: Seq<StorageId>, upto: int) -> Seq<
    StorageId,
>
    decreases upto,
{
    if upto <= 0 {
        Seq::empty()
    } else {
        pack_step(
            should_pack(storages, held, upto - 1),
            storages[upto - 1].storage_id(),
            storages[upto - 1].pack_view().shape(),
            held,
        )
    }
}

/// The storages to unpack after the first `upto` targets were asked.
pub open spec fn should_unpack<T>(storages: Seq<SparseSet<T>>, upto: int) -> Seq<StorageId>
    decreases upto,
{
    if upto <= 0 {
        Seq::empty()
    } else {
        unpack_step(should_unpack(storages, upto - 1), storages[upto - 1].pack_view().shape())
    }
}

/// What the addition of `targets` components to `entity` answers.
pub open spec fn add_outcome<T>(
    storages: Seq<SparseSet<T>>,
    targets: int,
    alive: bool,
) -> Result<(), error::AddComponent> {
    if !alive {
        Err(error::AddComponent::EntityIsNotAlive)
    } else {
        match first_missing(storages, targets, targets) {
            Some(id) => Err(error::AddComponent::MissingPackStorage(id)),
            None => Ok(()),
        }
    }
}

/// The storage at position `i` after `entity` took the components
/// `components` in the first storages: a target holds its component; each
/// storage that a target asked to pack has the entity in its packed
/// prefix.
pub open spec fn added<T>(
    storages: Seq<SparseSet<T>>,
    components: Seq<T>,
    entity: EntityId,
    i: int,
) -> Model<T> {
    let targets = components.len() as int;
    let wanted = should_pack(storages, held_ids(storages, targets, entity), targets).contains(
        storages[i].storage_id(),
    );
    if i < targets {
        storages[i].model().insert(entity, components[i]).packed_if(wanted, entity)
    } else {
        storages[i].model().packed_if(wanted, entity)
    }
}

/// The storage at position `i` after the first `targets` storages gave
/// up their components of `entity`: a target lost the component; each
/// other storage that a target named has the entity out of its packed
/// prefix.
pub open spec fn removed<T>(storages: Seq<SparseSet<T>>, targets: int, entity: EntityId, i: int) -> Model<
    T,
> {
    if i < targets {
        storages[i].model().without(entity)
    } else {
        storages[i].model().unpacked_if(
            should_unpack(storages, targets).contains(storages[i].storage_id()),
            entity,
        )
    }
}

/// What each of the first `targets` storages hands back when it gives up
/// its component of `entity`.
pub open spec fn old_components<T>(storages: Seq<SparseSet<T>>, targets: int, entity: EntityId) -> Seq<
    Option<OldComponent<T>>,
> {
    Seq::new(targets as nat, |i: int| old_component(storages[i].model(), entity))
}

/// A target found to miss a storage stays the first such target.
pub proof fn lemma_missing_stays<T>(storages: Seq<SparseSet<T>>, targets: int, upto: int, later: int)
    requires
        upto <= later,
        first_missing(storages, targets, upto) is Some,
    ensures
        first_missing(storages, targets, later) == first_missing(storages, targets, upto),
    decreases later - upto,
{
    if upto < later {
        lemma_missing_stays(storages, targets, upto, later - 1);
    }
}

/// No two storages are known under one id.
pub open spec fn distinct_ids<T>(storages: Seq<SparseSet<T>>) -> bool {
    forall|i: int, j: int|
        0 <= i < storages.len() && 0 <= j < storages.len() && i != j ==> (
        #[trigger] storages[i]).storage_id() != (#[trigger] storages[j]).storage_id()
}

/// Every storage holds `entity`.
pub open spec fn holds_all<T>(storages: Seq<SparseSet<T>>, entity: EntityId) -> bool {
    forall|i: int| 0 <= i < storages.len() ==> (#[trigger] storages[i]).has(entity)
}

/// The storages are tight-packed with each other and with nothing else,
/// and the pack is in order: all packed prefixes hold the same entities
/// at the same places, and they hold exactly the entities that have a
/// component in every storage.
pub open spec fn tight_group<T>(storages: Seq<SparseSet<T>>) -> bool {
    &&& storages.len() > 0
    &&& distinct_ids(storages)
    &&& forall|i: int|
        0 <= i < storages.len() ==> {
            &&& (#[trigger] storages[i]).pack_view().kind == PackKind::Tight
            &&& storages[i].pack_view().types == storages[0].pack_view().types
            &&& storages[i].model().prefix() == storages[0].model().prefix()
        }
    &&& forall|id: StorageId|
        storages[0].pack_view().types.contains(id) <==> ids_between(
            storages,
            0,
            storages.len() as int,
        ).contains(id)
    &&& forall|e: EntityId| storages[0].model().prefix().contains(e) <==> holds_all(storages, e)
}

/// The packed prefix of a tight group counts the entities that every
/// storage of the group holds.
pub proof fn lemma_group_count<T>(storages: Seq<SparseSet<T>>)
    requires
        forall|i: int| 0 <= i < storages.len() ==> (#[trigger] storages[i]).wf(),
        tight_group(storages),
    ensures
        Set::new(|e: EntityId| holds_all(storages, e)) == storages[0].model().prefix().to_set(),
        Set::new(|e: EntityId| holds_all(storages, e)).len() == storages[0].pack_view().lo,
        forall|i: int|
            0 <= i < storages.len() ==> (#[trigger] storages[i]).pack_view().lo
                == storages[0].pack_view().lo,
{
    let first = storages[0].model();
    lemma_prefix_member(first, first.ids[0]);
    assert(Set::new(|e: EntityId| holds_all(storages, e)) =~= first.prefix().to_set());
    first.prefix().unique_seq_to_set();
    assert forall|i: int| 0 <= i < storages.len() implies (#[trigger] storages[i]).pack_view().lo
        == storages[0].pack_view().lo by {
        lemma_prefix_member(storages[i].model(), first.ids[0]);
    }
}

/// An id is among the ids of a range of storages exactly if one of them
/// is known under it.
pub proof fn lemma_ids_between<T>(storages: Seq<SparseSet<T>>, from: int, to: int, id: StorageId)
    requires
        0 <= from <= to <= storages.len(),
    ensures
        ids_between(storages, from, to).contains(id) <==> exists|k: int|
            from <= k < to && (#[trigger] storages[k]).storage_id() == id,
{
    let ids = ids_between(storages, from, to);
    if ids.contains(id) {
        let k = ids.index_of(id);
        assert(storages[from + k].storage_id() == id);
    }
    if exists|k: int| from <= k < to && (#[trigger] storages[k]).storage_id() == id {
        let k = choose|k: int| from <= k < to && (#[trigger] storages[k]).storage_id() == id;
        assert(ids[k - from] == id);
    }
}

/// What the list of the storages that hold the entity holds: the targets,
/// and each storage beside them that is marked as holding the entity.
pub proof fn lemma_real_types(first: Seq<StorageId>, beside: Seq<(StorageId, bool)>, id: StorageId)
    ensures
        real_types(first, beside).contains(id) <==> (first.contains(id) || exists|k: int|
            0 <= k < beside.len() && #[trigger] beside[k] == (id, true)),
    decreases beside.len(),
{
    if beside.len() > 0 {
        let rest = beside.drop_last();
        lemma_real_types(first, rest, id);
        let before = real_types(first, rest);
        let last = beside.last();
        if last.1 {
            assert(before.push(last.0).contains(id) <==> (before.contains(id) || last.0 == id)) by {
                if before.contains(id) {
                    let k = before.index_of(id);
                    assert(before.push(last.0)[k] == id);
                }
                assert(before.push(last.0)[before.len() as int] == last.0);
            }
        }
        if exists|k: int| 0 <= k < rest.len() && #[trigger] rest[k] == (id, true) {
            let k = choose|k: int| 0 <= k < rest.len() && #[trigger] rest[k] == (id, true);
            assert(beside[k] == (id, true));
        }
        if exists|k: int| 0 <= k < beside.len() && #[trigger] beside[k] == (id, true) {
            let k = choose|k: int| 0 <= k < beside.len() && #[trigger] beside[k] == (id, true);
            if k < rest.len() {
                assert(rest[k] == (id, true));
            } else {
                assert(last == (id, true));
            }
        }
    }
}

/// In a tight group every storage of the pack is among the storages that
/// hold the entity exactly if every storage beside the targets holds it.
pub proof fn lemma_group_covered<T>(storages: Seq<SparseSet<T>>, targets: int, entity: EntityId)
    requires
        0 <= targets <= storages.len(),
        tight_group(storages),
    ensures
        covered(
            storages[0].pack_view().types,
            held_ids(storages, targets, entity),
            Seq::empty(),
        ) <==> (forall|j: int| targets <= j < storages.len() ==> (#[trigger] storages[j]).has(entity)),
{
    let types = storages[0].pack_view().types;
    let len = storages.len() as int;
    let first = ids_between(storages, 0, targets);
    let beside = beside_holding(storages, targets, entity);
    let held = held_ids(storages, targets, entity);
    let none = Seq::<StorageId>::empty();
    if forall|j: int| targets <= j < len ==> (#[trigger] storages[j]).has(entity) {
        assert forall|i: int| 0 <= i < types.len() implies held.contains(#[trigger] types[i])
            || none.contains(types[i]) by {
            let id = types[i];
            assert(types.contains(id));
            lemma_ids_between(storages, 0, len, id);
            let k = choose|k: int| 0 <= k < len && (#[trigger] storages[k]).storage_id() == id;
            lemma_real_types(first, beside, id);
            if k < targets {
                lemma_ids_between(storages, 0, targets, id);
            } else {
                assert(storages[k].has(entity));
                assert(beside[k - targets] == (id, true));
            }
        }
    }
    if covered(types, held, none) {
        assert forall|j: int| targets <= j < len implies (#[trigger] storages[j]).has(entity) by {
            let id = storages[j].storage_id();
            lemma_ids_between(storages, 0, len, id);
            assert(types.contains(id));
            let i = types.index_of(id);
            assert(held.contains(types[i]) || none.contains(types[i]));
            lemma_real_types(first, beside, id);
            lemma_ids_between(storages, 0, targets, id);
            if first.contains(id) {
                let k = choose|k: int| 0 <= k < targets && (#[trigger] storages[k]).storage_id() == id;
                assert(k != j);
            } else {
                let k = choose|k: int| 0 <= k < beside.len() && #[trigger] beside[k] == (id, true);
                assert(storages[targets + k].storage_id() == id);
                assert(targets + k == j);
            }
        }
    }
}

/// In a tight group the targets name the whole pack for packing, or
/// nothing: the pack if there is a target and the entity is found in
/// every storage of the pack.
pub proof fn lemma_group_should_pack<T>(storages: Seq<SparseSet<T>>, held: Seq<StorageId>, upto: int)
    requires
        0 <= upto <= storages.len(),
        forall|i: int| 0 <= i < storages.len() ==> (#[trigger] storages[i]).wf(),
        tight_group(storages),
    ensures
        should_pack(storages, held, upto) == (if upto > 0 && covered(
            storages[0].pack_view().types,
            held,
            Seq::empty(),
        ) {
            storages[0].pack_view().types
        } else {
            Seq::empty()
        }),
    decreases upto,
{
    if upto > 0 {
        lemma_group_should_pack(storages, held, upto - 1);
        let types = storages[0].pack_view().types;
        let before = should_pack(storages, held, upto - 1);
        let id = storages[upto - 1].storage_id();
        let shape = storages[upto - 1].pack_view().shape();
        assert(storages[upto - 1].wf());
        assert(shape.types == types);
        assert(shape.loose_types.len() == 0);
        assert(covered(shape.loose_types, held, Seq::empty()));
        lemma_ids_between(storages, 0, storages.len() as int, id);
        assert(types.contains(id));
        if covered(types, held, Seq::empty()) {
            if upto - 1 == 0 {
                assert(Seq::<StorageId>::empty() + types =~= types);
            }
        }
    }
}

/// In a tight group the targets, if there are any, name every storage of
/// the pack for unpacking.
pub proof fn lemma_group_should_unpack<T>(storages: Seq<SparseSet<T>>, upto: int, id: StorageId)
    requires
        0 < upto <= storages.len(),
        tight_group(storages),
        storages[0].pack_view().types.contains(id),
    ensures
        should_unpack(storages, upto).contains(id),
    decreases upto,
{
    let shape = storages[upto - 1].pack_view().shape();
    let before = should_unpack(storages, upto - 1);
    let k = shape.types.index_of(id);
    assert(shape.types == storages[0].pack_view().types);
    assert(shape.types[k] == id);
    assert(should_unpack(storages, upto)[before.len() + k] == id);
}

/// Pack prefix, bulk addition: a tight group is in order again after an
/// entity took components in some of its storages with the others passed
/// beside them, provided that no target holds another generation of the
/// entity's slot.
pub proof fn lemma_group_add<T>(
    before: Seq<SparseSet<T>>,
    after: Seq<SparseSet<T>>,
    components: Seq<T>,
    entity: EntityId,
)
    requires
        components.len() <= before.len(),
        forall|i: int| 0 <= i < before.len() ==> (#[trigger] before[i]).wf(),
        tight_group(before),
        forall|i: int|
            0 <= i < components.len() ==> slot_free_for((#[trigger] before[i]).model(), entity),
        after.len() == before.len(),
        forall|i: int|
            0 <= i < before.len() ==> (#[trigger] after[i]).storage_id() == before[i].storage_id()
                && after[i].model() == added(before, components, entity, i),
    ensures
        tight_group(after),
{
    let targets = components.len() as int;
    let len = before.len() as int;
    let types = before[0].pack_view().types;
    let prefix = before[0].model().prefix();
    let held = held_ids(before, targets, entity);
    let named = should_pack(before, held, targets);
    lemma_group_should_pack(before, held, targets);
    lemma_group_covered(before, targets, entity);
    let packing = targets > 0 && covered(types, held, Seq::empty());
    let grown = if prefix.contains(entity) { prefix } else { prefix.push(entity) };
    assert forall|i: int| 0 <= i < len implies {
        &&& (#[trigger] after[i]).pack_view().kind == PackKind::Tight
        &&& after[i].pack_view().types == types
        &&& after[i].model().prefix() == (if packing { grown } else { prefix })
        &&& forall|x: EntityId|
            after[i].has(x) <==> (before[i].has(x) || (x == entity && (i < targets || packing)))
    } by {
        let m = before[i].model();
        let id = before[i].storage_id();
        assert(before[i].wf());
        lemma_ids_between(before, 0, len, id);
        assert(types.contains(id));
        assert(named.contains(id) == packing);
        if i < targets {
            lemma_insert_prefix(m, entity, components[i]);
            let taken = m.insert(entity, components[i]);
            if packing {
                lemma_pack_prefix(taken, entity);
            }
        } else {
            if packing {
                assert(before[i].has(entity));
                lemma_pack_prefix(m, entity);
            }
        }
        assert forall|x: EntityId|
            after[i].has(x) <==> (before[i].has(x) || (x == entity && (i < targets || packing))) by {
            assert(after[i].has(x) <==> after[i].model().has(x));
            assert(before[i].has(x) <==> m.has(x));
        }
    }
    assert(distinct_ids(after)) by {
        assert forall|i: int, j: int| 0 <= i < len && 0 <= j < len && i != j implies (
        #[trigger] after[i]).storage_id() != (#[trigger] after[j]).storage_id() by {
            assert(before[i].storage_id() != before[j].storage_id());
        }
    }
    assert forall|id: StorageId|
        after[0].pack_view().types.contains(id) <==> ids_between(after, 0, len).contains(id) by {
        assert(ids_between(after, 0, len) =~= ids_between(before, 0, len));
    }
    assert forall|x: EntityId| after[0].model().prefix().contains(x) <==> holds_all(after, x) by {
        assert(prefix.contains(x) <==> holds_all(before, x));
        if packing && !prefix.contains(entity) {
            assert(prefix.push(entity).contains(x) <==> (prefix.contains(x) || x == entity)) by {
                if prefix.contains(x) {
                    let k = prefix.index_of(x);
                    assert(prefix.push(entity)[k] == x);
                }
                assert(prefix.push(entity)[prefix.len() as int] == entity);
            }
        }
        if x == entity {
            if packing {
                assert(holds_all(after, x));
            } else {
                if holds_all(after, x) {
                    if targets > 0 {
                        let j = choose|j: int| targets <= j < len && !(#[trigger] before[j]).has(entity);
                        assert(after[j].has(x));
                    } else {
                        assert forall|i: int| 0 <= i < len implies (#[trigger] before[i]).has(x) by {
                            assert(after[i].has(x));
                        }
                    }
                }
                if prefix.contains(x) {
                    assert(holds_all(before, x));
                    assert forall|i: int| 0 <= i < len implies (#[trigger] after[i]).has(x) by {
                        assert(before[i].has(x));
                    }
                }
            }
        } else {
            if holds_all(after, x) {
                assert forall|i: int| 0 <= i < len implies (#[trigger] before[i]).has(x) by {
                    assert(after[i].has(x));
                }
            }
            if holds_all(before, x) {
                assert forall|i: int| 0 <= i < len implies (#[trigger] after[i]).has(x) by {
                    assert(before[i].has(x));
                }
            }
        }
    }
}

/// Pack prefix, bulk removal: a tight group is in order again after some
/// of its storages gave up their components of an entity with the others
/// passed beside them.
pub proof fn lemma_group_remove<T>(
    before: Seq<SparseSet<T>>,
    after: Seq<SparseSet<T>>,
    targets: int,
    entity: EntityId,
)
    requires
        0 <= targets <= before.len(),
        forall|i: int| 0 <= i < before.len() ==> (#[trigger] before[i]).wf(),
        tight_group(before),
        after.len() == before.len(),
        forall|i: int|
            0 <= i < before.len() ==> (#[trigger] after[i]).storage_id() == before[i].storage_id()
                && after[i].model() == removed(before, targets, entity, i),
    ensures
        tight_group(after),
{
    let len = before.len() as int;
    let types = before[0].pack_view().types;
    let prefix = before[0].model().prefix();
    let shrunk = if prefix.contains(entity) {
        swap_removed(prefix, prefix.index_of(entity))
    } else {
        prefix
    };
    let leaving = targets > 0;
    assert forall|i: int| 0 <= i < len implies {
        &&& (#[trigger] after[i]).pack_view().kind == PackKind::Tight
        &&& after[i].pack_view().types == types
        &&& after[i].model().prefix() == (if leaving { shrunk } else { prefix })
        &&& forall|x: EntityId| after[i].has(x) <==> (before[i].has(x) && !(x == entity && i < targets))
    } by {
        let m = before[i].model();
        let id = before[i].storage_id();
        assert(before[i].wf());
        if i < targets {
            lemma_remove_prefix(m, entity);
        } else {
            if leaving {
                lemma_ids_between(before, 0, len, id);
                assert(types.contains(id));
                lemma_group_should_unpack(before, targets, id);
                lemma_unpack_prefix(m, entity);
            }
        }
        assert forall|x: EntityId|
            after[i].has(x) <==> (before[i].has(x) && !(x == entity && i < targets)) by {
            assert(after[i].has(x) <==> after[i].model().has(x));
            assert(before[i].has(x) <==> m.has(x));
        }
    }
    assert(distinct_ids(after)) by {
        assert forall|i: int, j: int| 0 <= i < len && 0 <= j < len && i != j implies (
        #[trigger] after[i]).storage_id() != (#[trigger] after[j]).storage_id() by {
            assert(before[i].storage_id() != before[j].storage_id());
        }
    }
    assert forall|id: StorageId|
        after[0].pack_view().types.contains(id) <==> ids_between(after, 0, len).contains(id) by {
        assert(ids_between(after, 0, len) =~= ids_between(before, 0, len));
    }
    lemma_prefix_member(before[0].model(), entity);
    assert forall|x: EntityId| after[0].model().prefix().contains(x) <==> holds_all(after, x) by {
        assert(prefix.contains(x) <==> holds_all(before, x));
        if leaving && prefix.contains(entity) {
            let p = prefix.index_of(entity);
            assert(prefix[p] == entity);
            lemma_swap_removed_members(prefix, p, x);
        }
        if x == entity && leaving {
            if holds_all(after, x) {
                assert(after[0].has(x));
            }
        } else {
            if holds_all(after, x) {
                assert forall|i: int| 0 <= i < len implies (#[trigger] before[i]).has(x) by {
                    assert(after[i].has(x));
                }
            }
            if holds_all(before, x) {
                assert forall|i: int| 0 <= i < len implies (#[trigger] after[i]).has(x) by {
                    assert(before[i].has(x));
                }
            }
        }
    }
}

/// The ids of the storages from `from` up to `to`, in that order.
fn collect_ids<T>(storages: &Vec<SparseSet<T>>, from: usize, to: usize) -> (ids: Vec<StorageId>)
    requires
        from <= to <= storages@.len(),
    ensures
        ids@ == ids_between(storages@, from as int, to as int),
{
    let mut ids: Vec<StorageId> = Vec::new();
    let mut i: usize = from;
    while i < to
        invariant
            from <= i <= to <= storages@.len(),
            ids@ == ids_between(storages@, from as int, i as int),
        decreases to - i,
    {
        ids.push(storages[i].id());
        i += 1;
        proof {
            assert(ids@ =~= ids_between(storages@, from as int, i as int));
        }
    }
    ids
}

/// The ids of the first `targets` storages, then of each storage behind
/// them that holds `entity`.
fn collect_held<T>(storages: &Vec<SparseSet<T>>, targets: usize, entity: EntityId) -> (held: Vec<
    StorageId,
>)
    requires
        targets <= storages@.len(),
        forall|i: int| 0 <= i < storages@.len() ==> (#[trigger] storages@[i]).wf(),
    ensures
        held@ == held_ids(storages@, targets as int, entity),
{
    let mut held = collect_ids(storages, 0, targets);
    let ghost first = ids_between(storages@, 0, targets as int);
    let ghost beside = beside_holding(storages@, targets as int, entity);
    let mut j: usize = targets;
    proof {
        assert(beside.subrange(0, 0) =~= Seq::<(StorageId, bool)>::empty());
    }
    while j < storages.len()
        invariant
            targets <= j <= storages@.len(),
            forall|i: int| 0 <= i < storages@.len() ==> (#[trigger] storages@[i]).wf(),
            first == ids_between(storages@, 0, targets as int),
            beside == beside_holding(storages@, targets as int, entity),
            held@ == real_types(first, beside.subrange(0, j - targets)),
        decreases storages.len() - j,
    {
        proof {
            let upto = beside.subrange(0, j - targets + 1);
            assert(upto.drop_last() =~= beside.subrange(0, j - targets));
            assert(upto.last() == beside[j - targets]);
        }
        if storages[j].contains(entity) {
            held.push(storages[j].id());
        }
        j += 1;
    }
    proof {
        assert(beside.subrange(0, beside.len() as int) =~= beside);
    }
    held
}

/// Gives `entity` the components `components`, one in each of the first
/// storages of `storages`, in order; the other storages are passed beside
/// these targets.
///
/// Nothing is written unless the entity is alive and every target finds
/// the storages that its pack metadata names among those passed. Then
/// each target is asked whether the entity, found in the targets and in
/// the storages beside them that hold it already, belongs in its packed
/// prefix; the storages that the targets name are packed.
pub fn try_add_components<T>(
    storages: &mut Vec<SparseSet<T>>,
    components: Vec<T>,
    entity: EntityId,
    entities: &Entities,
) -> (done: Result<(), error::AddComponent>)
    requires
        entities.wf(),
        components@.len() <= old(storages)@.len(),
        forall|i: int| 0 <= i < old(storages)@.len() ==> (#[trigger] old(storages)@[i]).wf(),
    ensures
        final(storages)@.len() == old(storages)@.len(),
        forall|i: int|
            0 <= i < old(storages)@.len() ==> (#[trigger] final(storages)@[i]).wf() && final(storages)@[i].storage_id() == old(storages)@[i].storage_id(),
        done == add_outcome(old(storages)@, components@.len() as int, entities@.alive(entity)),
        done is Err ==> final(storages)@ == old(storages)@,
        done is Ok ==> forall|i: int|
            0 <= i < old(storages)@.len() ==> (#[trigger] final(storages)@[i]).model() == added(
                old(storages)@,
                components@,
                entity,
                i,
            ),
        done is Ok && tight_group(old(storages)@) && (forall|i: int|
            0 <= i < components@.len() ==> slot_free_for(
                (#[trigger] old(storages)@[i]).model(),
                entity,
            )) ==> tight_group(final(storages)@),
{
    if !entities.is_alive(entity) {
        return Err(error::AddComponent::EntityIsNotAlive);
    }
    let targets = components.len();
    let len = storages.len();
    let target_ids = collect_ids(storages, 0, targets);
    let beside_ids = collect_ids(storages, targets, len);
    let storage_ids = sort_ids(target_ids.as_slice());
    let add_types = sort_ids(beside_ids.as_slice());
    let held = collect_held(storages, targets, entity);
    let found = sort_ids(held.as_slice());
    let mut packing: Vec<StorageId> = Vec::new();
    let mut i: usize = 0;
    while i < targets
        invariant
            i <= targets <= len,
            len == storages@.len(),
            storages@ == old(storages)@,
            targets == components@.len(),
            entities@.alive(entity),
            forall|k: int| 0 <= k < len ==> (#[trigger] storages@[k]).wf(),
            target_ids@ == ids_between(storages@, 0, targets as int),
            beside_ids@ == ids_between(storages@, targets as int, len as int),
            forall|id: StorageId| storage_ids@.contains(id) <==> target_ids@.contains(id),
            forall|id: StorageId| add_types@.contains(id) <==> beside_ids@.contains(id),
            held@ == held_ids(storages@, targets as int, entity),
            forall|id: StorageId| found@.contains(id) <==> held@.contains(id),
            first_missing(storages@, targets as int, i as int) is None,
            packing@ == should_pack(storages@, held@, i as int),
        decreases targets - i,
    {
        let id = storages[i].id();
        proof {
            let shape = storages@[i as int].pack_view().shape();
            lemma_shape_by_members(shape, storage_ids@, add_types@, target_ids@, beside_ids@);
            lemma_packable_by_members(shape, found@, held@);
        }
        if !storages[i].pack_info().has_all_storages(storage_ids.as_slice(), add_types.as_slice()) {
            proof {
                assert(first_missing(storages@, targets as int, i + 1) == Some(id));
                lemma_missing_stays(storages@, targets as int, i + 1, targets as int);
            }
            return Err(error::AddComponent::MissingPackStorage(id));
        }
        storages[i].pack_info().collect_packable(id, found.as_slice(), &mut packing);
        i += 1;
    }
    let mut j: usize = targets;
    while j < len
        invariant
            targets <= j <= len,
            len == storages@.len(),
            len == old(storages)@.len(),
            forall|k: int| 0 <= k < len ==> (#[trigger] storages@[k]).wf() && storages@[k].storage_id()
                == old(storages)@[k].storage_id(),
            forall|k: int| 0 <= k < targets ==> (#[trigger] storages@[k]) == old(storages)@[k],
            forall|k: int| j <= k < len ==> (#[trigger] storages@[k]) == old(storages)@[k],
            forall|k: int|
                targets <= k < j ==> (#[trigger] storages@[k]).model() == old(storages)@[k].model().packed_if(packing@.contains(old(storages)@[k].storage_id()), entity),
        decreases len - j,
    {
        let id = storages[j].id();
        let ghost before = storages@;
        if contains_id(packing.as_slice(), id) {
            storages[j].pack(entity);
        }
        proof {
            assert forall|k: int| 0 <= k < len implies (#[trigger] storages@[k]).wf()
                && storages@[k].storage_id() == old(storages)@[k].storage_id() by {
                if k != j {
                    assert(storages@[k] == before[k]);
                }
            }
            assert forall|k: int| 0 <= k < targets implies (#[trigger] storages@[k]) == old(storages)@[k] by {
                assert(storages@[k] == before[k]);
            }
            assert forall|k: int| j + 1 <= k < len implies (#[trigger] storages@[k]) == old(storages)@[k] by {
                assert(storages@[k] == before[k]);
            }
            assert forall|k: int| targets <= k < j + 1 implies (#[trigger] storages@[k]).model()
                == old(storages)@[k].model().packed_if(
                packing@.contains(old(storages)@[k].storage_id()),
                entity,
            ) by {
                if k != j {
                    assert(storages@[k] == before[k]);
                }
            }
        }
        j += 1;
    }
    let mut components = components;
    let ghost all = components@;
    let mut i: usize = targets;
    while i > 0
        invariant
            i <= targets <= len,
            len == storages@.len(),
            len == old(storages)@.len(),
            entity.spec_index() < usize::MAX,
            all.len() == targets,
            components@ == all.subrange(0, i as int),
            forall|k: int| 0 <= k < len ==> (#[trigger] storages@[k]).wf() && storages@[k].storage_id()
                == old(storages)@[k].storage_id(),
            forall|k: int| 0 <= k < i ==> (#[trigger] storages@[k]) == old(storages)@[k],
            forall|k: int|
                i <= k < targets ==> (#[trigger] storages@[k]).model() == old(storages)@[k].model().insert(entity, all[k]).packed_if(
                    packing@.contains(old(storages)@[k].storage_id()),
                    entity,
                ),
            forall|k: int|
                targets <= k < len ==> (#[trigger] storages@[k]).model() == old(storages)@[k].model().packed_if(packing@.contains(old(storages)@[k].storage_id()), entity),
        decreases i,
    {
        i -= 1;
        let value = components.pop().unwrap();
        let id = storages[i].id();
        let ghost before = storages@;
        storages[i].insert(value, entity);
        if contains_id(packing.as_slice(), id) {
            storages[i].pack(entity);
        }
        proof {
            assert(components@ =~= all.subrange(0, i as int));
            assert(value == all[i as int]);
            assert forall|k: int| 0 <= k < len implies (#[trigger] storages@[k]).wf()
                && storages@[k].storage_id() == old(storages)@[k].storage_id() by {
                if k != i {
                    assert(storages@[k] == before[k]);
                }
            }
            assert forall|k: int| 0 <= k < i implies (#[trigger] storages@[k]) == old(storages)@[k] by {
                assert(storages@[k] == before[k]);
            }
            assert forall|k: int| i <= k < targets implies (#[trigger] storages@[k]).model() == old(storages)@[k].model().insert(entity, all[k]).packed_if(
                packing@.contains(old(storages)@[k].storage_id()),
                entity,
            ) by {
                if k != i {
                    assert(storages@[k] == before[k]);
                }
            }
            assert forall|k: int| targets <= k < len implies (#[trigger] storages@[k]).model()
                == old(storages)@[k].model().packed_if(
                packing@.contains(old(storages)@[k].storage_id()),
                entity,
            ) by {
                assert(storages@[k] == before[k]);
            }
        }
    }
    proof {
        if tight_group(old(storages)@) && (forall|i: int|
            0 <= i < all.len() ==> slot_free_for((#[trigger] old(storages)@[i]).model(), entity)) {
            lemma_group_add(old(storages)@, storages@, all, entity);
        }
    }
    Ok(())
}

/// Takes the components of `entity` out of the first `targets` storages
/// of `storages` and hands back, in order, those it had; the other
/// storages are passed beside these targets.
///
/// Nothing is written unless every target finds the storages that its
/// pack metadata names among those passed. Then each storage beside the
/// targets that a target names, in its pack or among its observers, has
/// the entity moved out of its packed prefix.
pub fn try_remove_components<T>(
    storages: &mut Vec<SparseSet<T>>,
    targets: usize,
    entity: EntityId,
) -> (taken: Result<Vec<Option<OldComponent<T>>>, error::Remove>)
    requires
        targets <= old(storages)@.len(),
        forall|i: int| 0 <= i < old(storages)@.len() ==> (#[trigger] old(storages)@[i]).wf(),
    ensures
        final(storages)@.len() == old(storages)@.len(),
        forall|i: int|
            0 <= i < old(storages)@.len() ==> (#[trigger] final(storages)@[i]).wf() && final(storages)@[i].storage_id() == old(storages)@[i].storage_id(),
        first_missing(old(storages)@, targets as int, targets as int) matches Some(id) ==> taken
            == Err::<Vec<Option<OldComponent<T>>>, error::Remove>(
            error::Remove::MissingPackStorage(id),
        ) && final(storages)@ == old(storages)@,
        first_missing(old(storages)@, targets as int, targets as int) is None ==> taken is Ok,
        taken matches Ok(list) ==> list@ == old_components(old(storages)@, targets as int, entity)
            && forall|i: int|
            0 <= i < old(storages)@.len() ==> (#[trigger] final(storages)@[i]).model() == removed(
                old(storages)@,
                targets as int,
                entity,
                i,
            ),
        taken is Ok && tight_group(old(storages)@) ==> tight_group(final(storages)@),
{
    let len = storages.len();
    let target_ids = collect_ids(storages, 0, targets);
    let beside_ids = collect_ids(storages, targets, len);
    let types = sort_ids(target_ids.as_slice());
    let add_types = sort_ids(beside_ids.as_slice());
    let mut unpacking: Vec<StorageId> = Vec::new();
    let mut i: usize = 0;
    while i < targets
        invariant
            i <= targets <= len,
            len == storages@.len(),
            storages@ == old(storages)@,
            forall|k: int| 0 <= k < len ==> (#[trigger] storages@[k]).wf(),
            target_ids@ == ids_between(storages@, 0, targets as int),
            beside_ids@ == ids_between(storages@, targets as int, len as int),
            forall|id: StorageId| types@.contains(id) <==> target_ids@.contains(id),
            forall|id: StorageId| add_types@.contains(id) <==> beside_ids@.contains(id),
            first_missing(storages@, targets as int, i as int) is None,
            unpacking@ == should_unpack(storages@, i as int),
        decreases targets - i,
    {
        let id = storages[i].id();
        proof {
            let shape = storages@[i as int].pack_view().shape();
            lemma_shape_by_members(shape, types@, add_types@, target_ids@, beside_ids@);
        }
        if !storages[i].pack_info().has_all_storages(types.as_slice(), add_types.as_slice()) {
            proof {
                assert(first_missing(storages@, targets as int, i + 1) == Some(id));
                lemma_missing_stays(storages@, targets as int, i + 1, targets as int);
            }
            return Err(error::Remove::MissingPackStorage(id));
        }
        storages[i].pack_info().collect_siblings(&mut unpacking);
        i += 1;
    }
    let mut j: usize = targets;
    while j < len
        invariant
            targets <= j <= len,
            len == storages@.len(),
            len == old(storages)@.len(),
            forall|k: int| 0 <= k < len ==> (#[trigger] storages@[k]).wf() && storages@[k].storage_id()
                == old(storages)@[k].storage_id(),
            forall|k: int| 0 <= k < targets ==> (#[trigger] storages@[k]) == old(storages)@[k],
            forall|k: int| j <= k < len ==> (#[trigger] storages@[k]) == old(storages)@[k],
            forall|k: int|
                targets <= k < j ==> (#[trigger] storages@[k]).model() == old(storages)@[k].model().unpacked_if(unpacking@.contains(old(storages)@[k].storage_id()), entity),
        decreases len - j,
    {
        let id = storages[j].id();
        let ghost before = storages@;
        if contains_id(unpacking.as_slice(), id) {
            storages[j].unpack(entity);
        }
        proof {
            assert forall|k: int| 0 <= k < len implies (#[trigger] storages@[k]).wf()
                && storages@[k].storage_id() == old(storages)@[k].storage_id() by {
                if k != j {
                    assert(storages@[k] == before[k]);
                }
            }
            assert forall|k: int| 0 <= k < targets implies (#[trigger] storages@[k]) == old(storages)@[k] by {
                assert(storages@[k] == before[k]);
            }
            assert forall|k: int| j + 1 <= k < len implies (#[trigger] storages@[k]) == old(storages)@[k] by {
                assert(storages@[k] == before[k]);
            }
            assert forall|k: int| targets <= k < j + 1 implies (#[trigger] storages@[k]).model()
                == old(storages)@[k].model().unpacked_if(
                unpacking@.contains(old(storages)@[k].storage_id()),
                entity,
            ) by {
                if k != j {
                    assert(storages@[k] == before[k]);
                }
            }
        }
        j += 1;
    }
    let mut list: Vec<Option<OldComponent<T>>> = Vec::new();
    let mut i: usize = 0;
    while i < targets
        invariant
            i <= targets <= len,
            len == storages@.len(),
            len == old(storages)@.len(),
            list@ == old_components(old(storages)@, i as int, entity),
            forall|k: int| 0 <= k < len ==> (#[trigger] storages@[k]).wf() && storages@[k].storage_id()
                == old(storages)@[k].storage_id(),
            forall|k: int| i <= k < targets ==> (#[trigger] storages@[k]) == old(storages)@[k],
            forall|k: int|
                0 <= k < i ==> (#[trigger] storages@[k]).model() == old(storages)@[k].model().without(entity),
            forall|k: int|
                targets <= k < len ==> (#[trigger] storages@[k]).model() == old(storages)@[k].model().unpacked_if(unpacking@.contains(old(storages)@[k].storage_id()), entity),
        decreases targets - i,
    {
        let ghost before = storages@;
        let old_one = storages[i].actual_remove(entity);
        list.push(old_one);
        proof {
            assert(list@ =~= old_components(old(storages)@, i + 1, entity));
            assert forall|k: int| 0 <= k < len implies (#[trigger] storages@[k]).wf()
                && storages@[k].storage_id() == old(storages)@[k].storage_id() by {
                if k != i {
                    assert(storages@[k] == before[k]);
                }
            }
            assert forall|k: int| i + 1 <= k < targets implies (#[trigger] storages@[k]) == old(storages)@[k] by {
                assert(storages@[k] == before[k]);
            }
            assert forall|k: int| 0 <= k < i + 1 implies (#[trigger] storages@[k]).model() == old(storages)@[k].model().without(entity) by {
                if k != i {
                    assert(storages@[k] == before[k]);
                }
            }
            assert forall|k: int| targets <= k < len implies (#[trigger] storages@[k]).model()
                == old(storages)@[k].model().unpacked_if(
                unpacking@.contains(old(storages)@[k].storage_id()),
                entity,
            ) by {
                assert(storages@[k] == before[k]);
            }
        }
        i += 1;
    }
    proof {
        if tight_group(old(storages)@) {
            lemma_group_remove(old(storages)@, storages@, targets as int, entity);
        }
    }
    Ok(list)
}

/// The refusal of the first of the first `upto` storages that has a pack.
pub open spec fn first_packed<T>(storages: Seq<SparseSet<T>>, upto: int) -> Option<error::Pack>
    decreases upto,
{
    if upto <= 0 {
        None
    } else {
        match first_packed(storages, upto - 1) {
            Some(refusal) => Some(refusal),
            None => crate::packing::already_packed(storages[upto - 1].pack_view().kind),
        }
    }
}

/// A storage found to have a pack stays the first such storage.
pub proof fn lemma_packed_stays<T>(storages: Seq<SparseSet<T>>, upto: int, later: int)
    requires
        upto <= later,
        first_packed(storages, upto) is Some,
    ensures
        first_packed(storages, later) == first_packed(storages, upto),
    decreases later - upto,
{
    if upto < later {
        lemma_packed_stays(storages, upto, later - 1);
    }
}

/// Without a refusal none of the storages has a pack.
pub proof fn lemma_none_packed<T>(storages: Seq<SparseSet<T>>, upto: int)
    requires
        0 <= upto <= storages.len(),
        first_packed(storages, upto) is None,
    ensures
        forall|k: int| 0 <= k < upto ==> (#[trigger] storages[k]).pack_view().kind == PackKind::NoPack,
    decreases upto,
{
    if upto > 0 {
        lemma_none_packed(storages, upto - 1);
    }
}

/// Where none of the storages has a pack there is no refusal.
pub proof fn lemma_all_plain<T>(storages: Seq<SparseSet<T>>, upto: int)
    requires
        0 <= upto <= storages.len(),
        forall|k: int| 0 <= k < upto ==> (#[trigger] storages[k]).pack_view().kind == PackKind::NoPack,
    ensures
        first_packed(storages, upto) is None,
    decreases upto,
{
    if upto > 0 {
        lemma_all_plain(storages, upto - 1);
    }
}

/// The entities that every storage but the first holds.
pub open spec fn held_by_others<T>(storages: Seq<SparseSet<T>>) -> Set<EntityId> {
    Set::new(|e: EntityId| forall|k: int| 1 <= k < storages.len() ==> (#[trigger] storages[k]).has(e))
}

/// Whether every storage but the first holds `entity`.
fn others_hold<T>(storages: &Vec<SparseSet<T>>, entity: EntityId) -> (all: bool)
    requires
        forall|i: int| 0 <= i < storages@.len() ==> (#[trigger] storages@[i]).wf(),
    ensures
        all == held_by_others(storages@).contains(entity),
{
    let mut k: usize = 1;
    while k < storages.len()
        invariant
            1 <= k,
            forall|i: int| 0 <= i < storages@.len() ==> (#[trigger] storages@[i]).wf(),
            forall|j: int| 1 <= j < k && j < storages@.len() ==> (#[trigger] storages@[j]).has(entity),
        decreases storages.len() - k,
    {
        if !storages[k].contains(entity) {
            return false;
        }
        k += 1;
    }
    true
}

/// Moves `entity`, which every storage holds outside its packed prefix,
/// into the packed prefix of every storage.
fn pack_in_all<T>(storages: &mut Vec<SparseSet<T>>, entity: EntityId)
    requires
        forall|i: int| 0 <= i < old(storages)@.len() ==> (#[trigger] old(storages)@[i]).wf(),
    ensures
        final(storages)@.len() == old(storages)@.len(),
        forall|i: int|
            0 <= i < old(storages)@.len() ==> {
                &&& (#[trigger] final(storages)@[i]).wf()
                &&& final(storages)@[i].storage_id() == old(storages)@[i].storage_id()
                &&& final(storages)@[i].model() == old(storages)@[i].model().pack_entity(entity)
            },
{
    let len = storages.len();
    let mut k: usize = 0;
    while k < len
        invariant
            k <= len,
            len == storages@.len(),
            len == old(storages)@.len(),
            forall|i: int| 0 <= i < len ==> (#[trigger] storages@[i]).wf(),
            forall|i: int|
                0 <= i < k ==> (#[trigger] storages@[i]).storage_id() == old(storages)@[i].storage_id() && storages@[i].model() == old(storages)@[i].model().pack_entity(
                    entity,
                ),
            forall|i: int| k <= i < len ==> (#[trigger] storages@[i]) == old(storages)@[i],
        decreases len - k,
    {
        let ghost before = storages@;
        storages[k].pack(entity);
        proof {
            assert forall|i: int| 0 <= i < len implies (#[trigger] storages@[i]).wf() by {
                if i != k {
                    assert(storages@[i] == before[i]);
                }
            }
            assert forall|i: int| 0 <= i < k + 1 implies (#[trigger] storages@[i]).storage_id() == old(storages)@[i].storage_id() && storages@[i].model() == old(storages)@[i].model().pack_entity(
                entity,
            ) by {
                if i != k {
                    assert(storages@[i] == before[i]);
                }
            }
            assert forall|i: int| k + 1 <= i < len implies (#[trigger] storages@[i]) == old(storages)@[i] by {
                assert(storages@[i] == before[i]);
            }
        }
        k += 1;
    }
}

/// Tight-packs the storages with each other: the entities that all of
/// them hold stand at the front of every dense array from here on, in the
/// same order. Nothing is written if one of the storages has a pack
/// already.
///
/// The first storage is walked in the order of its dense array, and each
/// entity met that the others hold as well is moved into the packed
/// prefix of every storage.
pub fn tight_pack_all<T>(storages: &mut Vec<SparseSet<T>>) -> (done: Result<(), error::Pack>)
    requires
        forall|i: int| 0 <= i < old(storages)@.len() ==> (#[trigger] old(storages)@[i]).wf(),
    ensures
        final(storages)@.len() == old(storages)@.len(),
        forall|i: int|
            0 <= i < old(storages)@.len() ==> (#[trigger] final(storages)@[i]).wf() && final(storages)@[i].storage_id() == old(storages)@[i].storage_id() && final(storages)@[i]@ == old(storages)@[i]@,
        done == (match first_packed(old(storages)@, old(storages)@.len() as int) {
            Some(refusal) => Err::<(), error::Pack>(refusal),
            None => Ok(()),
        }),
        done is Err ==> final(storages)@ == old(storages)@,
        done is Ok && old(storages)@.len() > 0 ==> ({
            let types = final(storages)@[0].pack_view().types;
            let leader = old(storages)@[0].model().tight_packed(types);
            let held = held_by_others(old(storages)@);
            let count = old(storages)@[0].ids().len() as int;
            &&& crate::pack::sorted(types)
            &&& types.to_multiset() == ids_between(
                old(storages)@,
                0,
                old(storages)@.len() as int,
            ).to_multiset()
            &&& final(storages)@[0].model() == leader.gathered(held, count)
            &&& forall|k: int|
                1 <= k < old(storages)@.len() ==> (#[trigger] final(storages)@[k]).model() == old(storages)@[k].model().tight_packed(types).gathered_after(leader, held, count)
        }),
        done is Ok && old(storages)@.len() > 0 && distinct_ids(old(storages)@) ==> tight_group(
            final(storages)@,
        ),
{
    let len = storages.len();
    let mut i: usize = 0;
    while i < len
        invariant
            i <= len,
            len == storages@.len(),
            storages@ == old(storages)@,
            forall|k: int| 0 <= k < len ==> (#[trigger] storages@[k]).wf(),
            first_packed(storages@, i as int) is None,
        decreases len - i,
    {
        if !storages[i].pack_info().is_no_pack() {
            let refusal = storages[i].pack_info().refusal();
            proof {
                assert(first_packed(storages@, i + 1) == Some(refusal));
                lemma_packed_stays(storages@, i + 1, len as int);
            }
            return Err(refusal);
        }
        i += 1;
    }
    if len == 0 {
        return Ok(());
    }
    proof {
        lemma_none_packed(storages@, len as int);
    }
    let ids = collect_ids(storages, 0, len);
    let sorted_ids = sort_ids(ids.as_slice());
    let ghost types = sorted_ids@;
    let mut i: usize = 0;
    while i < len
        invariant
            i <= len,
            0 < len,
            len == storages@.len(),
            len == old(storages)@.len(),
            ids@ == ids_between(old(storages)@, 0, len as int),
            types == sorted_ids@,
            crate::pack::sorted(types),
            types.to_multiset() == ids@.to_multiset(),
            forall|id: StorageId| types.contains(id) <==> ids@.contains(id),
            forall|k: int| 0 <= k < len ==> (#[trigger] storages@[k]).wf() && storages@[k].storage_id()
                == old(storages)@[k].storage_id(),
            forall|k: int| i <= k < len ==> (#[trigger] storages@[k]) == old(storages)@[k],
            forall|k: int| i <= k < len ==> (#[trigger] old(storages)@[k]).pack_view().kind
                == PackKind::NoPack,
            forall|k: int|
                0 <= k < i ==> (#[trigger] storages@[k]).model() == old(storages)@[k].model().tight_packed(types),
        decreases len - i,
    {
        let mut types_here: Vec<StorageId> = Vec::new();
        crate::pack::append_ids(&mut types_here, sorted_ids.as_slice());
        assert(types_here@ =~= types);
        let ghost before = storages@;
        let packed = storages[i].try_tight_pack(types_here);
        proof {
            assert forall|k: int| 0 <= k < len implies (#[trigger] storages@[k]).wf()
                && storages@[k].storage_id() == old(storages)@[k].storage_id() by {
                if k != i {
                    assert(storages@[k] == before[k]);
                }
            }
            assert forall|k: int| i + 1 <= k < len implies (#[trigger] storages@[k]) == old(storages)@[k] by {
                assert(storages@[k] == before[k]);
            }
            assert forall|k: int| 0 <= k < i + 1 implies (#[trigger] storages@[k]).model() == old(storages)@[k].model().tight_packed(types) by {
                if k != i {
                    assert(storages@[k] == before[k]);
                }
            }
        }
        i += 1;
    }
    let ghost start = storages@;
    let ghost held = held_by_others(old(storages)@);
    let count = storages[0].len();
    let mut p: usize = 0;
    proof {
        assert forall|k: int| 0 <= k < len implies (#[trigger] start[k]).model().prefix()
            == Seq::<EntityId>::empty() by {
            assert(start[k].model().prefix() =~= Seq::<EntityId>::empty());
        }
        assert forall|k: int, x: EntityId| 0 <= k < len implies ((#[trigger] start[k]).has(x) <==> (
        #[trigger] old(storages)@[k].has(x))) by {}
    }
    while p < count
        invariant
            0 < len,
            len == storages@.len(),
            len == old(storages)@.len(),
            len == start.len(),
            held == held_by_others(old(storages)@),
            count == start[0].ids().len(),
            count == storages@[0].ids().len(),
            crate::pack::sorted(types),
            forall|k: int|
                0 <= k < len ==> {
                    &&& (#[trigger] storages@[k]).wf()
                    &&& storages@[k].storage_id() == old(storages)@[k].storage_id()
                    &&& storages@[k]@ == old(storages)@[k]@
                    &&& start[k].model() == old(storages)@[k].model().tight_packed(types)
                    &&& storages@[k].pack_view() == start[k].pack_view().with_bounds(
                        storages@[k].pack_view().lo,
                        storages@[k].pack_view().hi,
                    )
                    &&& storages@[k].model().prefix() == storages@[0].model().prefix()
                },
            forall|k: int, x: EntityId|
                0 <= k < len ==> ((#[trigger] storages@[k]).has(x) <==> (#[trigger] old(storages)@[k].has(
                    x,
                ))),
            storages@[0].pack_view().lo <= p <= count,
            storages@[0].model() == start[0].model().gathered(held, p as int),
            forall|k: int|
                1 <= k < len ==> (#[trigger] storages@[k]).model() == start[k].model().gathered_after(
                    start[0].model(),
                    held,
                    p as int,
                ),
            forall|x: EntityId|
                storages@[0].model().prefix().contains(x) ==> holds_all(storages@, x),
            forall|q: int|
                storages@[0].pack_view().lo <= q < p ==> !held.contains(#[trigger] storages@[0].ids()[q]),
        decreases count - p,
    {
        let entity = storages[0].id_at(p);
        let ghost before = storages@;
        proof {
            assert(before[0].wf());
            crate::model::lemma_index_of(before[0].ids(), p as int);
            lemma_prefix_member(before[0].model(), entity);
            assert forall|k: int| 0 <= k < len implies (#[trigger] before[k]).wf() by {}
            assert(held_by_others(before).contains(entity) <==> held.contains(entity)) by {
                if held_by_others(before).contains(entity) {
                    assert forall|k: int| 1 <= k < len implies (#[trigger] old(storages)@[k]).has(
                        entity,
                    ) by {
                        assert(before[k].has(entity));
                    }
                }
                if held.contains(entity) {
                    assert forall|k: int| 1 <= k < len implies (#[trigger] before[k]).has(entity) by {
                        assert(old(storages)@[k].has(entity));
                    }
                }
            }
        }
        if others_hold(storages, entity) {
            pack_in_all(storages, entity);
            proof {
                let prefix = before[0].model().prefix();
                assert forall|k: int| 0 <= k < len implies {
                    &&& (#[trigger] storages@[k]).wf()
                    &&& storages@[k].storage_id() == old(storages)@[k].storage_id()
                    &&& storages@[k]@ == old(storages)@[k]@
                    &&& storages@[k].pack_view() == start[k].pack_view().with_bounds(
                        storages@[k].pack_view().lo,
                        storages@[k].pack_view().hi,
                    )
                    &&& storages@[k].model().prefix() == prefix.push(entity)
                    &&& forall|x: EntityId| storages@[k].has(x) <==> before[k].has(x)
                } by {
                    let m = before[k].model();
                    assert(before[k].wf());
                    assert(before[k].has(entity)) by {
                        if k == 0 {
                        } else {
                            assert(old(storages)@[k].has(entity));
                        }
                    }
                    assert(m.prefix() == prefix);
                    lemma_pack_prefix(m, entity);
                    crate::model::lemma_pack_entity(m, entity);
                    assert forall|x: EntityId| storages@[k].has(x) <==> before[k].has(x) by {
                        assert(storages@[k].has(x) <==> m.pack_entity(entity).has(x));
                        assert(before[k].has(x) <==> m.has(x));
                    }
                }
                assert forall|k: int, x: EntityId| 0 <= k < len implies ((
                #[trigger] storages@[k]).has(x) <==> (#[trigger] old(storages)@[k].has(x))) by {
                    assert(storages@[k].has(x) <==> before[k].has(x));
                }
                assert forall|x: EntityId| storages@[0].model().prefix().contains(x) implies holds_all(
                    storages@,
                    x,
                ) by {
                    let grown = prefix.push(entity);
                    let k = grown.index_of(x);
                    if k < prefix.len() {
                        assert(prefix[k] == x);
                        assert(holds_all(before, x));
                    }
                    assert forall|j: int| 0 <= j < len implies (#[trigger] storages@[j]).has(x) by {
                        assert(storages@[j].has(x) <==> before[j].has(x));
                        assert(before[j].has(x)) by {
                            if x == entity {
                                if j > 0 {
                                    assert(old(storages)@[j].has(entity));
                                }
                            } else {
                                assert(holds_all(before, x));
                            }
                        }
                    }
                }
                let lo = before[0].pack_view().lo;
                crate::model::lemma_swapped(before[0].ids(), before[0].values(), p as int, lo);
                assert forall|q: int| storages@[0].pack_view().lo <= q < p + 1 implies !held.contains(
                    #[trigger] storages@[0].ids()[q],
                ) by {
                    if q == p {
                        assert(storages@[0].ids()[q] == before[0].ids()[lo]);
                    } else {
                        assert(storages@[0].ids()[q] == before[0].ids()[q]);
                    }
                }
            }
        }
        p += 1;
    }
    proof {
        let after = storages@;
        if distinct_ids(old(storages)@) {
            assert(distinct_ids(after)) by {
                assert forall|a: int, b: int| 0 <= a < len && 0 <= b < len && a != b implies (
                #[trigger] after[a]).storage_id() != (#[trigger] after[b]).storage_id() by {
                    assert(old(storages)@[a].storage_id() != old(storages)@[b].storage_id());
                }
            }
            assert(ids_between(after, 0, len as int) =~= ids@);
            assert forall|x: EntityId| holds_all(after, x) implies after[0].model().prefix().contains(x) by {
                assert(after[0].has(x));
                let q = after[0].model().position_of(x);
                assert(after[0].ids()[q] == x);
                lemma_prefix_member(after[0].model(), x);
                if q >= after[0].pack_view().lo {
                    assert(!held.contains(after[0].ids()[q]));
                    assert forall|k: int| 1 <= k < len implies (#[trigger] old(storages)@[k]).has(x) by {
                        assert(after[k].has(x));
                    }
                }
            }
            assert forall|k: int| 0 <= k < len implies {
                &&& (#[trigger] after[k]).pack_view().kind == PackKind::Tight
                &&& after[k].pack_view().types == after[0].pack_view().types
                &&& after[k].model().prefix() == after[0].model().prefix()
            } by {
                assert(start[k].model() == old(storages)@[k].model().tight_packed(types));
                assert(start[0].model() == old(storages)@[0].model().tight_packed(types));
            }
        }
        assert(start[0].model() == old(storages)@[0].model().tight_packed(types));
        assert forall|k: int| 1 <= k < len implies (#[trigger] after[k]).model() == old(storages)@[k].model().tight_packed(after[0].pack_view().types).gathered_after(
            old(storages)@[0].model().tight_packed(after[0].pack_view().types),
            held,
            count as int,
        ) by {
            assert(start[k].model() == old(storages)@[k].model().tight_packed(types));
        }
    }
    Ok(())
}

} // verus!

//! What holds of a sparse set after any sequence of insertions and
//! removals.

use crate::entity_id::EntityId;
use crate::model::{lemma_insert, lemma_occupant, lemma_remove, Model};
use crate::pack::PackKind;
use vstd::prelude::*;

verus! {

/// One call on a sparse set.
pub enum Step<T> {
    /// `insert(value, id)`.
    Insert(EntityId, T),
    /// `actual_remove(id)`.
    Remove(EntityId),
}

impl<T> Step<T> {
    /// The entity that the call names.
    pub open spec fn id(self) -> EntityId {
        match self {
            Step::Insert(id, _) => id,
            Step::Remove(id) => id,
        }
    }
}

/// The set `m` after the calls `steps`, in order.
pub open spec fn run<T>(m: Model<T>, steps: Seq<Step<T>>) -> Model<T>
    decreases steps.len(),
{
    if steps.len() == 0 {
        m
    } else {
        let before = run(m, steps.drop_last());
        match steps.last() {
            Step::Insert(id, value) => before.insert(id, value),
            Step::Remove(id) => before.without(id),
        }
    }
}

/// The entities that are inserted after the calls `steps`, when `start`
/// were inserted before them: an insertion adds its entity, a removal
/// takes its entity away.
pub open spec fn inserted<T>(start: Set<EntityId>, steps: Seq<Step<T>>) -> Set<EntityId>
    decreases steps.len(),
{
    if steps.len() == 0 {
        start
    } else {
        let before = inserted(start, steps.drop_last());
        match steps.last() {
            Step::Insert(id, _) => before.insert(id),
            Step::Remove(id) => before.remove(id),
        }
    }
}

/// The components that the removals among `steps` took out of `m`, in
/// order: what an update pack logs.
pub open spec fn removals<T>(m: Model<T>, steps: Seq<Step<T>>) -> Seq<(EntityId, T)>
    decreases steps.len(),
{
    if steps.len() == 0 {
        Seq::empty()
    } else {
        let before = run(m, steps.drop_last());
        let earlier = removals(m, steps.drop_last());
        match steps.last() {
            Step::Insert(_, _) => earlier,
            Step::Remove(id) => if before.has(id) {
                earlier.push((id, before.components()[id]))
            } else {
                earlier
            },
        }
    }
}

/// Each slot is named with one generation only, by the entities of `m`
/// and by the calls `steps`.
pub open spec fn one_generation_per_slot<T>(m: Model<T>, steps: Seq<Step<T>>) -> bool {
    &&& forall|k: int, i: int|
        0 <= k < m.ids.len() && 0 <= i < steps.len() && (#[trigger] m.ids[k]).spec_index() == (
        #[trigger] steps[i]).id().spec_index() ==> m.ids[k] == steps[i].id()
    &&& forall|i: int, j: int|
        0 <= i < steps.len() && 0 <= j < steps.len() && (#[trigger] steps[i]).id().spec_index() == (
        #[trigger] steps[j]).id().spec_index() ==> steps[i].id() == steps[j].id()
}

/// Every entity of the set after the calls is an entity of the set before
/// them or is named by a call.
proof fn lemma_run_ids<T>(m: Model<T>, steps: Seq<Step<T>>)
    requires
        m.wf(),
    ensures
        run(m, steps).wf(),
        forall|x: EntityId|
            run(m, steps).has(x) ==> m.has(x) || exists|i: int|
                0 <= i < steps.len() && (#[trigger] steps[i]).id() == x,
    decreases steps.len(),
{
    if steps.len() > 0 {
        let earlier = steps.drop_last();
        let before = run(m, earlier);
        lemma_run_ids(m, earlier);
        match steps.last() {
            Step::Insert(id, value) => {
                lemma_insert(before, id, value);
            },
            Step::Remove(id) => {
                if before.has(id) {
                    lemma_remove(before, id);
                }
            },
        }
        assert forall|x: EntityId| run(m, steps).has(x) implies m.has(x) || exists|i: int|
            0 <= i < steps.len() && (#[trigger] steps[i]).id() == x by {
            if x == steps.last().id() {
                assert(steps[steps.len() - 1].id() == x);
            } else {
                assert(before.has(x));
                if !m.has(x) {
                    let i = choose|i: int| 0 <= i < earlier.len() && (#[trigger] earlier[i]).id() == x;
                    assert(steps[i].id() == x);
                }
            }
        }
    }
}

/// Round trip: after any sequence of insertions and removals the set
/// holds exactly the entities that are inserted, as long as each slot is
/// named with one generation only. (An insertion for another generation
/// of a slot takes the entity of that slot out: see [`Model::insert`].)
pub proof fn lemma_round_trip<T>(m: Model<T>, steps: Seq<Step<T>>)
    requires
        m.wf(),
        one_generation_per_slot(m, steps),
    ensures
        run(m, steps).wf(),
        forall|id: EntityId| run(m, steps).has(id) <==> inserted(m.ids.to_set(), steps).contains(id),
        run(m, steps).components().dom() == inserted(m.ids.to_set(), steps),
    decreases steps.len(),
{
    if steps.len() == 0 {
        assert forall|id: EntityId| m.has(id) <==> m.ids.to_set().contains(id) by {}
    } else {
        let earlier = steps.drop_last();
        let before = run(m, earlier);
        assert(one_generation_per_slot(m, earlier)) by {
            assert forall|k: int, i: int|
                0 <= k < m.ids.len() && 0 <= i < earlier.len() && (#[trigger] m.ids[k]).spec_index()
                    == (#[trigger] earlier[i]).id().spec_index() implies m.ids[k] == earlier[i].id() by {
                assert(earlier[i] == steps[i]);
            }
            assert forall|i: int, j: int|
                0 <= i < earlier.len() && 0 <= j < earlier.len() && (#[trigger] earlier[i]).id().spec_index()
                    == (#[trigger] earlier[j]).id().spec_index() implies earlier[i].id()
                == earlier[j].id() by {
                assert(earlier[i] == steps[i] && earlier[j] == steps[j]);
            }
        }
        lemma_round_trip(m, earlier);
        lemma_run_ids(m, earlier);
        match steps.last() {
            Step::Insert(id, value) => {
                lemma_insert(before, id, value);
                assert forall|x: EntityId| before.has(x) && x.spec_index() == id.spec_index() implies x
                    == id by {
                    if m.has(x) {
                        let k = m.ids.index_of(x);
                        assert(m.ids[k] == x);
                        assert(steps[steps.len() - 1].id() == id);
                    } else {
                        let i = choose|i: int| 0 <= i < earlier.len() && (#[trigger] earlier[i]).id() == x;
                        assert(steps[i].id() == x);
                        assert(steps[steps.len() - 1].id() == id);
                    }
                }
            },
            Step::Remove(id) => {
                if before.has(id) {
                    lemma_remove(before, id);
                }
            },
        }
    }
    assert(run(m, steps).components().dom() =~= inserted(m.ids.to_set(), steps));
}

/// Update log exhaustiveness, the regions: the inserted, the modified
/// and the unchanged region make up the dense array, in this order.
pub proof fn lemma_regions_cover<T>(m: Model<T>)
    requires
        m.wf(),
    ensures
        m.ids == m.ids.subrange(0, m.pack.lo) + m.ids.subrange(m.pack.lo, m.pack.hi)
            + m.ids.subrange(m.pack.hi, m.ids.len() as int),
        m.values == m.values.subrange(0, m.pack.lo) + m.values.subrange(m.pack.lo, m.pack.hi)
            + m.values.subrange(m.pack.hi, m.values.len() as int),
{
    assert(m.ids =~= m.ids.subrange(0, m.pack.lo) + m.ids.subrange(m.pack.lo, m.pack.hi)
        + m.ids.subrange(m.pack.hi, m.ids.len() as int));
    assert(m.values =~= m.values.subrange(0, m.pack.lo) + m.values.subrange(
        m.pack.lo,
        m.pack.hi,
    ) + m.values.subrange(m.pack.hi, m.values.len() as int));
}

/// Update log exhaustiveness, the removed log: after any sequence of
/// insertions and removals on an update-packed set, the log holds what it
/// held before and then exactly the components that the removals took
/// out, in order, as long as each slot is named with one generation only.
pub proof fn lemma_removed_log<T>(m: Model<T>, steps: Seq<Step<T>>)
    requires
        m.wf(),
        m.pack.kind == PackKind::Update,
        one_generation_per_slot(m, steps),
    ensures
        run(m, steps).pack.kind == PackKind::Update,
        run(m, steps).pack.removed == m.pack.removed + removals(m, steps),
    decreases steps.len(),
{
    if steps.len() == 0 {
        assert(m.pack.removed + Seq::<(EntityId, T)>::empty() =~= m.pack.removed);
    } else {
        let earlier = steps.drop_last();
        let before = run(m, earlier);
        assert(one_generation_per_slot(m, earlier)) by {
            assert forall|k: int, i: int|
                0 <= k < m.ids.len() && 0 <= i < earlier.len() && (#[trigger] m.ids[k]).spec_index()
                    == (#[trigger] earlier[i]).id().spec_index() implies m.ids[k] == earlier[i].id() by {
                assert(earlier[i] == steps[i]);
            }
            assert forall|i: int, j: int|
                0 <= i < earlier.len() && 0 <= j < earlier.len() && (#[trigger] earlier[i]).id().spec_index()
                    == (#[trigger] earlier[j]).id().spec_index() implies earlier[i].id()
                == earlier[j].id() by {
                assert(earlier[i] == steps[i] && earlier[j] == steps[j]);
            }
        }
        lemma_removed_log(m, earlier);
        lemma_run_ids(m, earlier);
        match steps.last() {
            Step::Insert(id, value) => {
                if !before.has(id) && before.slot_taken(id.spec_index()) {
                    lemma_occupant(before, id.spec_index());
                    let x = before.occupant(id.spec_index());
                    if m.has(x) {
                        let k = m.ids.index_of(x);
                        assert(m.ids[k] == x);
                        assert(steps[steps.len() - 1].id() == id);
                    } else {
                        let i = choose|i: int| 0 <= i < earlier.len() && (#[trigger] earlier[i]).id() == x;
                        assert(steps[i].id() == x);
                        assert(steps[steps.len() - 1].id() == id);
                    }
                }
            },
            Step::Remove(id) => {
                if before.has(id) {
                    let p = before.position_of(id);
                    assert(before.ids[p] == id);
                    assert(run(m, steps).pack.removed =~= m.pack.removed + removals(m, steps));
                }
            },
        }
    }
}

} // verus!

//! Mathematical model of a sparse set: its dense array, its components
//! and its pack metadata, with the effect of each operation on them.

use crate::entity_id::EntityId;
use crate::pack::{PackKind, PackView};
use vstd::prelude::*;

verus! {

/// `s` with the elements at `i` and `j` exchanged.
pub open spec fn swapped<A>(s: Seq<A>, i: int, j: int) -> Seq<A> {
    s.update(i, s[j]).update(j, s[i])
}

/// `s` after `x` was appended and brought to position `lo`: what stood at
/// `lo` goes to `hi`, what stood at `hi` goes to the end.
pub open spec fn rotated_in<A>(s: Seq<A>, x: A, lo: int, hi: int) -> Seq<A> {
    swapped(swapped(s.push(x), hi, s.len() as int), lo, hi)
}

/// `s` without the element at `p`, taken out region by region: the
/// element changes places with the last element below `lo` if it stands
/// there, then with the last below `hi`, then with the last of all, which
/// is dropped.
pub open spec fn taken_out<A>(s: Seq<A>, p: int, lo: int, hi: int) -> Seq<A> {
    let once = if p < lo { swapped(s, p, lo - 1) } else { s };
    let at_once = if p < lo { lo - 1 } else { p };
    let twice = if at_once < hi { swapped(once, at_once, hi - 1) } else { once };
    let at_twice = if at_once < hi { hi - 1 } else { at_once };
    swapped(twice, at_twice, s.len() - 1).drop_last()
}

/// No two identifiers of `ids` name the same slot.
pub open spec fn distinct_indices(ids: Seq<EntityId>) -> bool {
    forall|i: int, j: int|
        0 <= i < ids.len() && 0 <= j < ids.len() && i != j ==> (#[trigger] ids[i]).spec_index()
            != (#[trigger] ids[j]).spec_index()
}

/// The two arrays have one length and no slot occurs twice.
pub open spec fn dense_ok<T>(ids: Seq<EntityId>, values: Seq<T>) -> bool {
    ids.len() == values.len() && distinct_indices(ids)
}

/// The component of each entity of `ids`.
pub open spec fn components<T>(ids: Seq<EntityId>, values: Seq<T>) -> Map<EntityId, T> {
    Map::new(|id: EntityId| ids.contains(id), |id: EntityId| values[ids.index_of(id)])
}

/// Where the element of position `k` stands after `i` and `j` changed places.
pub open spec fn swapped_position(k: int, i: int, j: int) -> int {
    if k == i {
        j
    } else if k == j {
        i
    } else {
        k
    }
}

/// With distinct slots, an entity is found where it stands.
pub proof fn lemma_index_of(ids: Seq<EntityId>, k: int)
    requires
        distinct_indices(ids),
        0 <= k < ids.len(),
    ensures
        ids.contains(ids[k]),
        ids.index_of(ids[k]) == k,
        ids.no_duplicates(),
{
    let c = ids.index_of(ids[k]);
    assert(ids[c] == ids[k]);
}

/// Exchanging two positions keeps the entities, their components and the
/// distinctness of slots.
pub proof fn lemma_swapped<T>(ids: Seq<EntityId>, values: Seq<T>, i: int, j: int)
    requires
        dense_ok(ids, values),
        0 <= i < ids.len(),
        0 <= j < ids.len(),
    ensures
        dense_ok(swapped(ids, i, j), swapped(values, i, j)),
        forall|x: EntityId| swapped(ids, i, j).contains(x) <==> ids.contains(x),
        forall|x: EntityId|
            ids.contains(x) ==> swapped(ids, i, j).index_of(x) == swapped_position(
                ids.index_of(x),
                i,
                j,
            ),
        components(swapped(ids, i, j), swapped(values, i, j)) == components(ids, values),
{
    let ids2 = swapped(ids, i, j);
    let values2 = swapped(values, i, j);
    assert(distinct_indices(ids2)) by {
        assert forall|a: int, b: int|
            0 <= a < ids2.len() && 0 <= b < ids2.len() && a != b implies (#[trigger] ids2[a]).spec_index()
            != (#[trigger] ids2[b]).spec_index() by {
            let a0 = swapped_position(a, i, j);
            let b0 = swapped_position(b, i, j);
            assert(ids2[a] == ids[a0] && ids2[b] == ids[b0]);
        }
    }
    assert forall|x: EntityId| ids2.contains(x) <==> ids.contains(x) by {
        if ids2.contains(x) {
            let k = ids2.index_of(x);
            assert(ids[swapped_position(k, i, j)] == x);
        }
        if ids.contains(x) {
            let k = ids.index_of(x);
            assert(ids2[swapped_position(k, i, j)] == x);
        }
    }
    assert forall|x: EntityId| ids.contains(x) implies ids2.index_of(x) == swapped_position(
        ids.index_of(x),
        i,
        j,
    ) by {
        let k = ids.index_of(x);
        let k2 = swapped_position(k, i, j);
        assert(ids2[k2] == x);
        lemma_index_of(ids2, k2);
    }
    assert(components(ids2, values2) =~= components(ids, values)) by {
        assert forall|x: EntityId| ids.contains(x) implies values2[ids2.index_of(x)]
            == values[ids.index_of(x)] by {
            let k = ids.index_of(x);
            assert(ids[k] == x);
        }
    }
}

/// Appending an entity whose slot is free adds its component and nothing else.
pub proof fn lemma_pushed<T>(ids: Seq<EntityId>, values: Seq<T>, id: EntityId, value: T)
    requires
        dense_ok(ids, values),
        forall|k: int| 0 <= k < ids.len() ==> (#[trigger] ids[k]).spec_index() != id.spec_index(),
    ensures
        dense_ok(ids.push(id), values.push(value)),
        forall|x: EntityId| ids.push(id).contains(x) <==> (ids.contains(x) || x == id),
        components(ids.push(id), values.push(value)) == components(ids, values).insert(id, value),
        !ids.contains(id),
{
    let ids2 = ids.push(id);
    let values2 = values.push(value);
    assert(distinct_indices(ids2));
    assert(!ids.contains(id)) by {
        if ids.contains(id) {
            let k = ids.index_of(id);
            assert(ids[k].spec_index() == id.spec_index());
        }
    }
    assert forall|x: EntityId| ids2.contains(x) <==> (ids.contains(x) || x == id) by {
        if ids2.contains(x) {
            let k = ids2.index_of(x);
            if k < ids.len() {
                assert(ids[k] == x);
            }
        }
        if ids.contains(x) {
            let k = ids.index_of(x);
            assert(ids2[k] == x);
        }
        assert(ids2[ids.len() as int] == id);
    }
    assert(components(ids2, values2) =~= components(ids, values).insert(id, value)) by {
        assert forall|x: EntityId| ids2.contains(x) implies #[trigger] values2[ids2.index_of(x)] == (
        if x == id {
            value
        } else {
            values[ids.index_of(x)]
        }) by {
            if x == id {
                lemma_index_of(ids2, ids.len() as int);
            } else {
                let k = ids.index_of(x);
                assert(ids2[k] == x);
                lemma_index_of(ids2, k);
            }
        }
    }
}

/// Dropping the last entity removes its component and nothing else.
pub proof fn lemma_dropped<T>(ids: Seq<EntityId>, values: Seq<T>)
    requires
        dense_ok(ids, values),
        ids.len() > 0,
    ensures
        dense_ok(ids.drop_last(), values.drop_last()),
        forall|x: EntityId| ids.drop_last().contains(x) <==> (ids.contains(x) && x != ids.last()),
        components(ids.drop_last(), values.drop_last()) == components(ids, values).remove(
            ids.last(),
        ),
{
    let ids2 = ids.drop_last();
    let values2 = values.drop_last();
    let last = ids.len() - 1;
    assert(distinct_indices(ids2));
    assert forall|x: EntityId| ids2.contains(x) <==> (ids.contains(x) && x != ids.last()) by {
        if ids2.contains(x) {
            let k = ids2.index_of(x);
            assert(ids[k] == x);
            assert(ids[k].spec_index() != ids[last].spec_index());
        }
        if ids.contains(x) && x != ids.last() {
            let k = ids.index_of(x);
            assert(ids2[k] == x);
        }
    }
    assert(components(ids2, values2) =~= components(ids, values).remove(ids.last())) by {
        assert forall|x: EntityId| ids2.contains(x) implies #[trigger] values2[ids2.index_of(x)]
            == values[ids.index_of(x)] by {
            let k = ids2.index_of(x);
            assert(ids[k] == x);
            lemma_index_of(ids, k);
        }
    }
}

/// Replacing the component at one position changes that entity's
/// component and nothing else.
pub proof fn lemma_updated<T>(ids: Seq<EntityId>, values: Seq<T>, p: int, value: T)
    requires
        dense_ok(ids, values),
        0 <= p < ids.len(),
    ensures
        dense_ok(ids, values.update(p, value)),
        components(ids, values.update(p, value)) == components(ids, values).insert(ids[p], value),
{
    lemma_index_of(ids, p);
    assert(components(ids, values.update(p, value)) =~= components(ids, values).insert(
        ids[p],
        value,
    )) by {
        assert forall|x: EntityId| ids.contains(x) && x != ids[p] implies ids.index_of(x) != p by {
            let k = ids.index_of(x);
            assert(ids[k] == x);
        }
    }
}

/// A sparse set as plain values.
pub struct Model<T> {
    /// The dense array: entities in iteration order.
    pub ids: Seq<EntityId>,
    /// The components, in the order of `ids`.
    pub values: Seq<T>,
    /// Pack metadata.
    pub pack: PackView<T>,
}

impl<T> Model<T> {
    /// Invariant of a sparse set.
    pub open spec fn wf(self) -> bool {
        &&& dense_ok(self.ids, self.values)
        &&& 0 <= self.pack.lo <= self.pack.hi <= self.ids.len()
        &&& self.pack.kind != PackKind::Update ==> self.pack.lo == self.pack.hi
        &&& self.pack.kind == PackKind::NoPack ==> self.pack.hi == 0
        &&& self.pack.well_shaped()
    }

    /// The component of each entity.
    pub open spec fn components(self) -> Map<EntityId, T> {
        components(self.ids, self.values)
    }

    /// Whether `id` has a component.
    pub open spec fn has(self, id: EntityId) -> bool {
        self.ids.contains(id)
    }

    /// Position of `id` in the dense array.
    pub open spec fn position_of(self, id: EntityId) -> int {
        self.ids.index_of(id)
    }

    /// Whether some entity of the set occupies the slot `index`.
    pub open spec fn slot_taken(self, index: u64) -> bool {
        exists|k: int| 0 <= k < self.ids.len() && (#[trigger] self.ids[k]).spec_index() == index
    }

    /// The entity of the set that occupies the slot `index`.
    pub open spec fn occupant(self, index: u64) -> EntityId {
        let k = choose|k: int|
            0 <= k < self.ids.len() && (#[trigger] self.ids[k]).spec_index() == index;
        self.ids[k]
    }

    /// The set with the two arrays and the bounds replaced.
    pub open spec fn arranged(self, ids: Seq<EntityId>, values: Seq<T>, lo: int, hi: int) -> Model<
        T,
    > {
        Model { ids, values, pack: self.pack.with_bounds(lo, hi) }
    }

    /// Marks the entry at `p` modified: under an update pack an unchanged
    /// entry changes places with the first unchanged one and the modified
    /// region grows over it. Otherwise nothing moves.
    pub open spec fn mark_modified(self, p: int) -> Model<T> {
        if self.pack.kind == PackKind::Update && p >= self.pack.hi {
            self.arranged(
                swapped(self.ids, p, self.pack.hi),
                swapped(self.values, p, self.pack.hi),
                self.pack.lo,
                self.pack.hi + 1,
            )
        } else {
            self
        }
    }

    /// Replaces the component of `id`, which the set holds, and marks it
    /// modified.
    pub open spec fn overwrite(self, id: EntityId, value: T) -> Model<T> {
        let p = self.position_of(id);
        Model { values: self.values.update(p, value), ..self }.mark_modified(p)
    }

    /// Adds `id`, whose slot is free. Under an update pack the entry goes
    /// to the end of the inserted region and both regions move up by one;
    /// otherwise it goes to the end of the dense array.
    pub open spec fn append(self, id: EntityId, value: T) -> Model<T> {
        if self.pack.kind == PackKind::Update {
            self.arranged(
                rotated_in(self.ids, id, self.pack.lo, self.pack.hi),
                rotated_in(self.values, value, self.pack.lo, self.pack.hi),
                self.pack.lo + 1,
                self.pack.hi + 1,
            )
        } else {
            Model { ids: self.ids.push(id), values: self.values.push(value), ..self }
        }
    }

    /// Takes out `id`, which the set holds. Each region that held the
    /// entry shrinks by one; an update pack logs the component.
    pub open spec fn remove(self, id: EntityId) -> Model<T> {
        let p = self.position_of(id);
        let lo = self.pack.lo;
        let hi = self.pack.hi;
        Model {
            ids: taken_out(self.ids, p, lo, hi),
            values: taken_out(self.values, p, lo, hi),
            pack: PackView {
                lo: if p < lo { lo - 1 } else { lo },
                hi: if p < hi { hi - 1 } else { hi },
                removed: if self.pack.kind == PackKind::Update {
                    self.pack.removed.push((id, self.values[p]))
                } else {
                    self.pack.removed
                },
                ..self.pack
            },
        }
    }

    /// Gives `id` the component `value`: overwrites if the set holds `id`;
    /// otherwise takes out whatever entity occupies the slot of `id` and
    /// adds `id`.
    pub open spec fn insert(self, id: EntityId, value: T) -> Model<T> {
        if self.has(id) {
            self.overwrite(id, value)
        } else if self.slot_taken(id.spec_index()) {
            self.remove(self.occupant(id.spec_index())).append(id, value)
        } else {
            self.append(id, value)
        }
    }

    /// Moves `id` into the packed prefix of a tight or loose pack, if the
    /// set holds it outside the prefix.
    pub open spec fn pack_entity(self, id: EntityId) -> Model<T> {
        let p = self.position_of(id);
        if self.has(id) && self.pack.is_grouped() && p >= self.pack.lo {
            self.arranged(
                swapped(self.ids, p, self.pack.lo),
                swapped(self.values, p, self.pack.lo),
                self.pack.lo + 1,
                self.pack.hi + 1,
            )
        } else {
            self
        }
    }

    /// Moves `id` out of the packed prefix of a tight or loose pack, if
    /// the set holds it there.
    pub open spec fn unpack_entity(self, id: EntityId) -> Model<T> {
        let p = self.position_of(id);
        if self.has(id) && self.pack.is_grouped() && p < self.pack.lo {
            self.arranged(
                swapped(self.ids, p, self.pack.lo - 1),
                swapped(self.values, p, self.pack.lo - 1),
                self.pack.lo - 1,
                self.pack.hi - 1,
            )
        } else {
            self
        }
    }

    /// Replaces every component, entity by entity in the order of the
    /// dense array. Under an update pack all that the set holds counts as
    /// modified then, unless it counts as inserted.
    pub open spec fn with_values(self, values: Seq<T>) -> Model<T> {
        Model {
            values,
            pack: if self.pack.kind == PackKind::Update {
                self.pack.with_bounds(self.pack.lo, self.ids.len() as int)
            } else {
                self.pack
            },
            ..self
        }
    }

    /// Starts tracking updates on a set that has no pack: what the set
    /// holds counts as inserted.
    pub open spec fn update_packed(self) -> Model<T> {
        Model {
            pack: PackView {
                kind: PackKind::Update,
                lo: self.ids.len() as int,
                hi: self.ids.len() as int,
                removed: Seq::empty(),
                ..self.pack
            },
            ..self
        }
    }

    /// Starts a tight pack over `types` on a set that has no pack, with
    /// nothing packed yet.
    pub open spec fn tight_packed(self, types: Seq<crate::storage_id::StorageId>) -> Model<T> {
        Model { pack: PackView { kind: PackKind::Tight, types, lo: 0, hi: 0, ..self.pack }, ..self }
    }

    /// Starts a loose pack on a set that has no pack, with nothing packed yet.
    pub open spec fn loose_packed(
        self,
        tight_types: Seq<crate::storage_id::StorageId>,
        loose_types: Seq<crate::storage_id::StorageId>,
    ) -> Model<T> {
        Model {
            pack: PackView {
                kind: PackKind::Loose,
                types: tight_types,
                loose_types,
                lo: 0,
                hi: 0,
                ..self.pack
            },
            ..self
        }
    }

    /// Adds `observer` to the observers unless it is one already.
    pub open spec fn observed_by(self, observer: crate::storage_id::StorageId) -> Model<T> {
        if self.pack.observer_types.contains(observer) {
            self
        } else {
            Model {
                pack: PackView {
                    observer_types: self.pack.observer_types.push(observer),
                    ..self.pack
                },
                ..self
            }
        }
    }

    /// Empties the inserted region of an update pack and keeps the
    /// modified region: as long as an inserted entry is left, the last of
    /// them changes places with the last modified entry and both bounds
    /// go down by one. With no modified entry nothing moves.
    pub open spec fn clear_inserted(self) -> Model<T>
        decreases self.pack.lo,
    {
        if self.pack.kind != PackKind::Update || self.pack.lo <= 0 {
            self
        } else {
            self.arranged(
                swapped(self.ids, self.pack.lo - 1, self.pack.hi - 1),
                swapped(self.values, self.pack.lo - 1, self.pack.hi - 1),
                self.pack.lo - 1,
                self.pack.hi - 1,
            ).clear_inserted()
        }
    }

    /// Empties the modified region of an update pack.
    pub open spec fn clear_modified(self) -> Model<T> {
        if self.pack.kind == PackKind::Update {
            self.arranged(self.ids, self.values, self.pack.lo, self.pack.lo)
        } else {
            self
        }
    }

    /// Empties the inserted and the modified region of an update pack.
    pub open spec fn clear_inserted_and_modified(self) -> Model<T> {
        if self.pack.kind == PackKind::Update {
            self.arranged(self.ids, self.values, 0, 0)
        } else {
            self
        }
    }

    /// Empties the removed log.
    pub open spec fn take_removed(self) -> Model<T> {
        Model { pack: PackView { removed: Seq::empty(), ..self.pack }, ..self }
    }

    /// The entries from the last to the first, as the removed log takes them.
    pub open spec fn drained(self) -> Seq<(EntityId, T)> {
        Seq::new(
            self.ids.len(),
            |k: int| (self.ids[self.ids.len() - 1 - k], self.values[self.ids.len() - 1 - k]),
        )
    }

    /// Takes out every entry. An update pack logs them, last entry first.
    pub open spec fn cleared(self) -> Model<T> {
        Model {
            ids: Seq::empty(),
            values: Seq::empty(),
            pack: PackView {
                lo: 0,
                hi: 0,
                removed: if self.pack.kind == PackKind::Update {
                    self.pack.removed + self.drained()
                } else {
                    self.pack.removed
                },
                ..self.pack
            },
        }
    }

    /// The storages to repair when an entity leaves this one: those packed
    /// with it, then its observers.
    pub open spec fn siblings(self) -> Seq<crate::storage_id::StorageId> {
        self.pack.types + self.pack.observer_types
    }

    /// The set after its first `upto` positions were visited in ascending
    /// order and each entity met there that is one of `held` was moved
    /// into the packed prefix.
    pub open spec fn gathered(self, held: Set<EntityId>, upto: int) -> Model<T>
        decreases upto,
    {
        if upto <= 0 {
            self
        } else {
            let before = self.gathered(held, upto - 1);
            if held.contains(before.ids[upto - 1]) {
                before.pack_entity(before.ids[upto - 1])
            } else {
                before
            }
        }
    }

    /// The set after it followed `leader` through [`Model::gathered`]:
    /// each entity that `leader` moved into its packed prefix was moved
    /// into the packed prefix here, in the same order.
    pub open spec fn gathered_after<L>(self, leader: Model<L>, held: Set<EntityId>, upto: int) -> Model<
        T,
    >
        decreases upto,
    {
        if upto <= 0 {
            self
        } else {
            let before = self.gathered_after(leader, held, upto - 1);
            let entity = leader.gathered(held, upto - 1).ids[upto - 1];
            if held.contains(entity) {
                before.pack_entity(entity)
            } else {
                before
            }
        }
    }

    /// [`Model::pack_entity`] if `wanted`, else the set as it is.
    pub open spec fn packed_if(self, wanted: bool, id: EntityId) -> Model<T> {
        if wanted {
            self.pack_entity(id)
        } else {
            self
        }
    }

    /// [`Model::unpack_entity`] if `wanted`, else the set as it is.
    pub open spec fn unpacked_if(self, wanted: bool, id: EntityId) -> Model<T> {
        if wanted {
            self.unpack_entity(id)
        } else {
            self
        }
    }

    /// [`Model::remove`] if the set holds `id`, else the set as it is.
    pub open spec fn without(self, id: EntityId) -> Model<T> {
        if self.has(id) {
            self.remove(id)
        } else {
            self
        }
    }

    /// The packed prefix of a tight or loose pack; the inserted region of
    /// an update pack.
    pub open spec fn prefix(self) -> Seq<EntityId> {
        self.ids.subrange(0, self.pack.lo)
    }

    /// Whether `id` lies in the packed prefix, or the inserted region.
    pub open spec fn in_first_region(self, id: EntityId) -> bool {
        self.has(id) && self.position_of(id) < self.pack.lo
    }

    /// Whether `id` lies in the modified region of an update pack.
    pub open spec fn in_second_region(self, id: EntityId) -> bool {
        self.has(id) && self.pack.lo <= self.position_of(id) < self.pack.hi
    }
}

/// Marking an entry modified keeps the set's entities and components.
pub proof fn lemma_mark_modified<T>(m: Model<T>, p: int)
    requires
        m.wf(),
        0 <= p < m.ids.len(),
    ensures
        m.mark_modified(p).wf(),
        m.mark_modified(p).components() == m.components(),
        forall|x: EntityId| m.mark_modified(p).has(x) <==> m.has(x),
        m.mark_modified(p).ids.len() == m.ids.len(),
        m.pack.kind == PackKind::Update ==> m.mark_modified(p).position_of(m.ids[p])
            < m.mark_modified(p).pack.hi,
        forall|x: EntityId|
            m.has(x) && m.position_of(x) < m.pack.hi ==> m.mark_modified(p).position_of(x)
                == m.position_of(x),
{
    if m.pack.kind == PackKind::Update && p >= m.pack.hi {
        lemma_swapped(m.ids, m.values, p, m.pack.hi);
        lemma_index_of(m.ids, p);
    } else {
        lemma_index_of(m.ids, p);
    }
}

/// Overwriting changes the component of that entity and nothing else.
pub proof fn lemma_overwrite<T>(m: Model<T>, id: EntityId, value: T)
    requires
        m.wf(),
        m.has(id),
    ensures
        m.overwrite(id, value).wf(),
        m.overwrite(id, value).components() == m.components().insert(id, value),
        forall|x: EntityId| m.overwrite(id, value).has(x) <==> m.has(x),
        m.overwrite(id, value).ids.len() == m.ids.len(),
{
    let p = m.position_of(id);
    assert(m.ids[p] == id);
    lemma_updated(m.ids, m.values, p, value);
    let m1 = Model { values: m.values.update(p, value), ..m };
    lemma_mark_modified(m1, p);
    assert forall|x: EntityId| m.overwrite(id, value).has(x) <==> m.has(x) by {
        assert(m1.mark_modified(p).has(x) <==> m1.has(x));
        assert(m1.has(x) <==> m.has(x));
    }
}

/// Adding an entity whose slot is free adds its component and nothing else.
pub proof fn lemma_append<T>(m: Model<T>, id: EntityId, value: T)
    requires
        m.wf(),
        !m.slot_taken(id.spec_index()),
    ensures
        m.append(id, value).wf(),
        m.append(id, value).components() == m.components().insert(id, value),
        forall|x: EntityId| m.append(id, value).has(x) <==> (m.has(x) || x == id),
        m.append(id, value).ids.len() == m.ids.len() + 1,
        !m.has(id),
{
    lemma_pushed(m.ids, m.values, id, value);
    if m.pack.kind == PackKind::Update {
        let n = m.ids.len() as int;
        let ids1 = m.ids.push(id);
        let values1 = m.values.push(value);
        lemma_swapped(ids1, values1, m.pack.hi, n);
        lemma_swapped(swapped(ids1, m.pack.hi, n), swapped(values1, m.pack.hi, n), m.pack.lo, m.pack.hi);
    }
}

/// Taking out an entity removes its component and nothing else.
pub proof fn lemma_remove<T>(m: Model<T>, id: EntityId)
    requires
        m.wf(),
        m.has(id),
    ensures
        m.remove(id).wf(),
        m.remove(id).components() == m.components().remove(id),
        forall|x: EntityId| m.remove(id).has(x) <==> (m.has(x) && x != id),
        m.remove(id).ids.len() == m.ids.len() - 1,
        !m.remove(id).slot_taken(id.spec_index()),
{
    let p = m.position_of(id);
    let lo = m.pack.lo;
    let hi = m.pack.hi;
    let n = m.ids.len() as int;
    assert(m.ids[p] == id);
    let ids1 = if p < lo { swapped(m.ids, p, lo - 1) } else { m.ids };
    let values1 = if p < lo { swapped(m.values, p, lo - 1) } else { m.values };
    let at_once = if p < lo { lo - 1 } else { p };
    if p < lo {
        lemma_swapped(m.ids, m.values, p, lo - 1);
    }
    let ids2 = if at_once < hi { swapped(ids1, at_once, hi - 1) } else { ids1 };
    let values2 = if at_once < hi { swapped(values1, at_once, hi - 1) } else { values1 };
    let at_twice = if at_once < hi { hi - 1 } else { at_once };
    if at_once < hi {
        lemma_swapped(ids1, values1, at_once, hi - 1);
    }
    lemma_swapped(ids2, values2, at_twice, n - 1);
    let ids3 = swapped(ids2, at_twice, n - 1);
    let values3 = swapped(values2, at_twice, n - 1);
    assert(ids3.last() == id);
    lemma_dropped(ids3, values3);
    assert(m.remove(id).ids == ids3.drop_last());
    assert(m.remove(id).values == values3.drop_last());
    let r = m.remove(id);
    assert(!r.slot_taken(id.spec_index())) by {
        if r.slot_taken(id.spec_index()) {
            let k = choose|k: int|
                0 <= k < r.ids.len() && (#[trigger] r.ids[k]).spec_index() == id.spec_index();
            assert(ids3[k] == r.ids[k]);
            assert(ids3[n - 1] == id);
        }
    }
}

/// The occupant of a taken slot is an entity of the set with that slot.
pub proof fn lemma_occupant<T>(m: Model<T>, index: u64)
    requires
        m.slot_taken(index),
    ensures
        m.has(m.occupant(index)),
        m.occupant(index).spec_index() == index,
{
    let k = choose|k: int| 0 <= k < m.ids.len() && (#[trigger] m.ids[k]).spec_index() == index;
    assert(m.ids[k] == m.occupant(index));
}

/// After an insertion the set holds the entity with the new component;
/// besides, it lost at most the entity that occupied the same slot.
pub proof fn lemma_insert<T>(m: Model<T>, id: EntityId, value: T)
    requires
        m.wf(),
    ensures
        m.insert(id, value).wf(),
        m.insert(id, value).has(id),
        m.insert(id, value).components()[id] == value,
        m.insert(id, value).components() == (if !m.has(id) && m.slot_taken(id.spec_index()) {
            m.components().remove(m.occupant(id.spec_index()))
        } else {
            m.components()
        }).insert(id, value),
        forall|x: EntityId|
            m.insert(id, value).has(x) <==> (x == id || (m.has(x) && x.spec_index()
                != id.spec_index())),
{
    let r = m.insert(id, value);
    if m.has(id) {
        lemma_overwrite(m, id, value);
        let p = m.position_of(id);
        assert(m.ids[p] == id);
        assert forall|x: EntityId| m.has(x) && x != id implies x.spec_index()
            != id.spec_index() by {
            let k = m.position_of(x);
            assert(m.ids[k] == x);
        }
        assert forall|x: EntityId| m.has(x) && x.spec_index() != id.spec_index() implies x
            != id by {}
    } else if m.slot_taken(id.spec_index()) {
        let o = m.occupant(id.spec_index());
        lemma_occupant(m, id.spec_index());
        lemma_remove(m, o);
        lemma_append(m.remove(o), id, value);
        assert forall|x: EntityId| m.has(x) && x != o implies x.spec_index()
            != id.spec_index() by {
            let k = m.position_of(x);
            let ko = m.position_of(o);
            assert(m.ids[k] == x && m.ids[ko] == o);
        }
    } else {
        lemma_append(m, id, value);
        assert forall|x: EntityId| m.has(x) implies x.spec_index() != id.spec_index() by {
            let k = m.position_of(x);
            assert(m.ids[k] == x);
        }
    }
}

/// Moving an entity into the packed prefix keeps entities and components.
pub proof fn lemma_pack_entity<T>(m: Model<T>, id: EntityId)
    requires
        m.wf(),
    ensures
        m.pack_entity(id).wf(),
        m.pack_entity(id).components() == m.components(),
        forall|x: EntityId| m.pack_entity(id).has(x) <==> m.has(x),
        m.has(id) && m.pack.is_grouped() ==> m.pack_entity(id).in_first_region(id),
{
    let p = m.position_of(id);
    if m.has(id) && m.pack.is_grouped() && p >= m.pack.lo {
        assert(m.ids[p] == id);
        lemma_swapped(m.ids, m.values, p, m.pack.lo);
    }
}

/// Moving an entity out of the packed prefix keeps entities and components.
pub proof fn lemma_unpack_entity<T>(m: Model<T>, id: EntityId)
    requires
        m.wf(),
    ensures
        m.unpack_entity(id).wf(),
        m.unpack_entity(id).components() == m.components(),
        forall|x: EntityId| m.unpack_entity(id).has(x) <==> m.has(x),
        !m.unpack_entity(id).in_first_region(id) || !m.pack.is_grouped(),
{
    let p = m.position_of(id);
    if m.has(id) && m.pack.is_grouped() && p < m.pack.lo {
        assert(m.ids[p] == id);
        lemma_swapped(m.ids, m.values, p, m.pack.lo - 1);
    }
}

/// Clearing the inserted region keeps entities and components, leaves no
/// inserted entry, and keeps as modified exactly what was modified.
pub proof fn lemma_clear_inserted<T>(m: Model<T>)
    requires
        m.wf(),
    ensures
        m.clear_inserted().wf(),
        m.clear_inserted().components() == m.components(),
        forall|x: EntityId| m.clear_inserted().has(x) <==> m.has(x),
        m.clear_inserted().ids.len() == m.ids.len(),
        m.pack.kind == PackKind::Update ==> m.clear_inserted().pack.lo == 0
            && m.clear_inserted().pack.hi == m.pack.hi - m.pack.lo,
        m.pack.kind == PackKind::Update ==> forall|x: EntityId|
            m.clear_inserted().in_second_region(x) <==> m.in_second_region(x),
        m.pack.kind != PackKind::Update ==> m.clear_inserted() == m,
        m.clear_inserted().pack == m.pack.with_bounds(
            m.clear_inserted().pack.lo,
            m.clear_inserted().pack.hi,
        ),
    decreases m.pack.lo,
{
    if m.pack.kind != PackKind::Update || m.pack.lo <= 0 {
    } else {
        let lo = m.pack.lo;
        let hi = m.pack.hi;
        lemma_swapped(m.ids, m.values, lo - 1, hi - 1);
        let m1 = m.arranged(
            swapped(m.ids, lo - 1, hi - 1),
            swapped(m.values, lo - 1, hi - 1),
            lo - 1,
            hi - 1,
        );
        lemma_clear_inserted(m1);
        assert forall|x: EntityId| m.clear_inserted().has(x) <==> m.has(x) by {
            assert(m1.has(x) <==> m.has(x));
        }
        assert forall|x: EntityId| m1.in_second_region(x) <==> m.in_second_region(x) by {
            if m.has(x) {
                let k = m.position_of(x);
                assert(m.ids[k] == x);
                assert(m1.position_of(x) == crate::model::swapped_position(k, lo - 1, hi - 1));
            }
        }
    }
}

/// With no modified entry, clearing the inserted region moves nothing.
pub proof fn lemma_clear_inserted_alone<T>(m: Model<T>)
    requires
        m.wf(),
        m.pack.kind == PackKind::Update,
        m.pack.lo == m.pack.hi,
    ensures
        m.clear_inserted() == m.clear_inserted_and_modified(),
    decreases m.pack.lo,
{
    if m.pack.lo > 0 {
        let lo = m.pack.lo;
        assert(swapped(m.ids, lo - 1, lo - 1) =~= m.ids);
        assert(swapped(m.values, lo - 1, lo - 1) =~= m.values);
        let m1 = m.arranged(m.ids, m.values, lo - 1, lo - 1);
        lemma_clear_inserted_alone(m1);
    }
}

} // verus!

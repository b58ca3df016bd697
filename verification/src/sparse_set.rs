//! Sparse set: the container of one storage's components.

use crate::entity_id::EntityId;
use crate::error;
use crate::model::{
    lemma_append, lemma_clear_inserted, lemma_index_of, lemma_insert, lemma_mark_modified,
    lemma_occupant, lemma_pack_entity, lemma_remove, lemma_unpack_entity, swapped, Model,
};
use crate::pack::{LoosePack, Pack, PackInfo, PackKind, PackView, TightPack, UpdatePack};
use crate::storage_id::StorageId;
use vstd::prelude::*;

verus! {

/// Specifies `<[T]>::swap` of the standard library: the elements at the two
/// positions change places and every other element stays.
pub assume_specification<Item>[ <[Item]>::swap ](slice: &mut [Item], a: usize, b: usize)
    requires
        a < old(slice)@.len(),
        b < old(slice)@.len(),
    ensures
        final(slice)@ == swapped(old(slice)@, a as int, b as int),
;

/// What a removal or an overwrite hands back.
#[derive(Debug, PartialEq, Eq)]
pub enum OldComponent<T> {
    /// The component itself.
    Owned(T),
    /// The component went to the removed log; this is its position there.
    OldValue(usize),
}

/// What taking `id` out of the set `m` hands back: nothing if the set
/// does not hold `id`; under an update pack the position that the
/// component gets in the removed log; otherwise the component.
pub open spec fn old_component<T>(m: Model<T>, id: EntityId) -> Option<OldComponent<T>> {
    if !m.has(id) {
        None
    } else if m.pack.kind == PackKind::Update {
        Some(OldComponent::OldValue(m.pack.removed.len() as usize))
    } else {
        Some(OldComponent::Owned(m.values[m.position_of(id)]))
    }
}

/// Where an entity's component lies, and for which generation.
#[derive(Clone, Copy, Debug, PartialEq, Eq, Structural)]
pub struct SparseEntry {
    pub position: usize,
    pub gen: u64,
}

/// Components of one type, keyed by entity.
///
/// `dense` lists the entities that have a component and `data` holds the
/// components in the same order; `sparse` maps an entity's index to its
/// position in both.
pub struct SparseSet<T> {
    id: StorageId,
    sparse: Vec<Option<SparseEntry>>,
    dense: Vec<EntityId>,
    data: Vec<T>,
    pack_info: PackInfo<T>,
}

impl<T> View for SparseSet<T> {
    type V = Map<EntityId, T>;

    /// The component of each entity in the set.
    open spec fn view(&self) -> Map<EntityId, T> {
        self.model().components()
    }
}

impl<T> SparseSet<T> {
    /// Id under which the storage is known.
    pub closed spec fn storage_id(&self) -> StorageId {
        self.id
    }

    /// The dense array: entities in iteration order.
    pub closed spec fn ids(&self) -> Seq<EntityId> {
        self.dense@
    }

    /// The components, in the order of [`SparseSet::ids`].
    pub closed spec fn values(&self) -> Seq<T> {
        self.data@
    }

    /// Pack metadata of the storage.
    pub closed spec fn pack_view(&self) -> PackView<T> {
        self.pack_info@
    }

    /// The set as plain values.
    pub open spec fn model(&self) -> Model<T> {
        Model { ids: self.ids(), values: self.values(), pack: self.pack_view() }
    }

    /// The sparse array: for each slot index, where the component of the
    /// entity in that slot lies and for which generation, if the set holds
    /// an entity of that slot.
    pub closed spec fn sparse(&self) -> Seq<Option<SparseEntry>> {
        self.sparse@
    }

    /// The sparse array is the inverse of the dense array: the entry of
    /// the slot of the entity at position `i` says `i` and the generation
    /// of that entity, and every entry points at an entity of its slot.
    pub open spec fn sparse_mirrors_dense(&self) -> bool {
        &&& self.ids().len() == self.values().len()
        &&& forall|i: int|
            0 <= i < self.ids().len() ==> {
                &&& (#[trigger] self.ids()[i]).spec_index() < self.sparse().len()
                &&& self.sparse()[self.ids()[i].spec_index() as int] matches Some(e)
                &&& e.position == i
                &&& e.gen == self.ids()[i].spec_gen()
            }
        &&& forall|k: int|
            0 <= k < self.sparse().len() ==> (#[trigger] self.sparse()[k] matches Some(e) ==> {
                &&& e.position < self.ids().len()
                &&& self.ids()[e.position as int].spec_index() == k
                &&& self.ids()[e.position as int].spec_gen() == e.gen
            })
    }

    /// Invariant of the set.
    pub open spec fn wf(&self) -> bool {
        &&& self.sparse_mirrors_dense()
        &&& self.model().wf()
    }

    /// Whether `id` has a component in the set.
    pub open spec fn has(&self, id: EntityId) -> bool {
        self.ids().contains(id)
    }

    /// Position of `id` in the dense array.
    pub open spec fn position_of(&self, id: EntityId) -> int {
        self.ids().index_of(id)
    }

    /// The sparse array yields distinct slots.
    proof fn lemma_mirror_facts(&self)
        requires
            self.sparse_mirrors_dense(),
        ensures
            crate::model::dense_ok(self.ids(), self.values()),
            self.ids().len() <= usize::MAX,
            self.sparse@.len() <= usize::MAX,
    {
        vstd::std_specs::vec::axiom_spec_len(&self.dense);
        vstd::std_specs::vec::axiom_spec_len(&self.sparse);
        assert forall|i: int, j: int|
            0 <= i < self.dense@.len() && 0 <= j < self.dense@.len() && i != j implies (
        #[trigger] self.dense@[i]).spec_index() != (#[trigger] self.dense@[j]).spec_index() by {
            if self.dense@[i].spec_index() == self.dense@[j].spec_index() {
                assert(self.sparse@[self.dense@[i].spec_index() as int]->0.position == i);
                assert(self.sparse@[self.dense@[j].spec_index() as int]->0.position == j);
            }
        }
    }

    /// In a well-formed set an entity stands at one position only.
    pub proof fn lemma_position(&self, id: EntityId, i: int)
        requires
            self.wf(),
            0 <= i < self.ids().len(),
            self.ids()[i] == id,
        ensures
            self.has(id),
            self.position_of(id) == i,
            self@.contains_key(id),
            self@[id] == self.values()[i],
    {
        lemma_index_of(self.ids(), i);
    }

    /// An empty set for the storage `id`, neither packed nor observed.
    pub fn new(id: StorageId) -> (set: SparseSet<T>)
        ensures
            set.wf(),
            set.storage_id() == id,
            set.ids() == Seq::<EntityId>::empty(),
            set.values() == Seq::<T>::empty(),
            set.pack_view().is_plain(),
            set@ == Map::<EntityId, T>::empty(),
    {
        let set = SparseSet {
            id,
            sparse: Vec::new(),
            dense: Vec::new(),
            data: Vec::new(),
            pack_info: PackInfo::new(),
        };
        assert(set@ =~= Map::<EntityId, T>::empty());
        set
    }

    /// Id under which the storage is known.
    pub fn id(&self) -> (id: StorageId)
        ensures
            id == self.storage_id(),
    {
        self.id
    }

    /// Pack metadata of the storage.
    pub fn pack_info(&self) -> (info: &PackInfo<T>)
        ensures
            info@ == self.pack_view(),
    {
        &self.pack_info
    }

    /// Number of components.
    pub fn len(&self) -> (len: usize)
        ensures
            len == self.ids().len(),
    {
        self.dense.len()
    }

    /// Whether the set holds no component.
    pub fn is_empty(&self) -> (empty: bool)
        ensures
            empty == (self.ids().len() == 0),
    {
        self.dense.len() == 0
    }

    /// Position of `id` in the dense array, if it has a component.
    pub fn position(&self, id: EntityId) -> (position: Option<usize>)
        requires
            self.wf(),
        ensures
            position is Some <==> self.has(id),
            position matches Some(p) ==> p == self.position_of(id) && p < self.ids().len()
                && self.ids()[p as int] == id,
    {
        let index = id.index();
        if index >= self.sparse.len() as u64 {
            proof {
                if self.has(id) {
                    let i = self.ids().index_of(id);
                    assert(self.dense@[i].spec_index() < self.sparse@.len());
                }
            }
            return None;
        }
        match self.sparse[index as usize] {
            Some(entry) => {
                if entry.gen == id.gen() {
                    proof {
                        assert(self.sparse@[index as int] == Some(entry));
                        EntityId::lemma_parts_determine(self.dense@[entry.position as int], id);
                        self.lemma_position(id, entry.position as int);
                    }
                    Some(entry.position)
                } else {
                    proof {
                        assert(self.sparse@[index as int] == Some(entry));
                        if self.has(id) {
                            let i = self.ids().index_of(id);
                            assert(self.dense@[i] == id);
                        }
                    }
                    None
                }
            },
            None => {
                proof {
                    if self.has(id) {
                        let i = self.ids().index_of(id);
                        assert(self.dense@[i] == id);
                    }
                }
                None
            },
        }
    }

    /// The entity of the set that occupies the slot `index`, if any.
    pub fn occupant_of(&self, index: u64) -> (occupant: Option<EntityId>)
        requires
            self.wf(),
        ensures
            occupant is Some <==> self.model().slot_taken(index),
            occupant matches Some(o) ==> o == self.model().occupant(index) && self.has(o)
                && o.spec_index() == index,
    {
        if index >= self.sparse.len() as u64 {
            proof {
                if self.model().slot_taken(index) {
                    lemma_occupant(self.model(), index);
                    let i = self.ids().index_of(self.model().occupant(index));
                    assert(self.dense@[i].spec_index() < self.sparse@.len());
                }
            }
            return None;
        }
        match self.sparse[index as usize] {
            Some(entry) => {
                let found = self.dense[entry.position];
                proof {
                    assert(self.sparse@[index as int] == Some(entry));
                    assert(self.ids()[entry.position as int].spec_index() == index);
                    lemma_occupant(self.model(), index);
                    let o = self.model().occupant(index);
                    let i = self.ids().index_of(o);
                    assert(self.ids()[i] == o);
                    assert(i == entry.position);
                }
                Some(found)
            },
            None => {
                proof {
                    if self.model().slot_taken(index) {
                        lemma_occupant(self.model(), index);
                        let i = self.ids().index_of(self.model().occupant(index));
                        assert(self.dense@[i].spec_index() == index);
                    }
                }
                None
            },
        }
    }

    /// Whether `id` has a component in the set.
    pub fn contains(&self, id: EntityId) -> (found: bool)
        requires
            self.wf(),
        ensures
            found == self.has(id),
            found == self@.contains_key(id),
    {
        self.position(id).is_some()
    }

    /// The component of `id`, if it has one.
    pub fn get(&self, id: EntityId) -> (value: Option<&T>)
        requires
            self.wf(),
        ensures
            value is Some <==> self@.contains_key(id),
            value matches Some(v) ==> *v == self@[id],
    {
        match self.position(id) {
            Some(p) => {
                proof {
                    self.lemma_position(id, p as int);
                }
                Some(&self.data[p])
            },
            None => None,
        }
    }

    /// Exchanges two positions of the dense array.
    fn swap_entries(&mut self, i: usize, j: usize)
        requires
            old(self).sparse_mirrors_dense(),
            i < old(self).ids().len(),
            j < old(self).ids().len(),
        ensures
            final(self).sparse_mirrors_dense(),
            final(self).ids() == swapped(old(self).ids(), i as int, j as int),
            final(self).values() == swapped(old(self).values(), i as int, j as int),
            final(self).pack_view() == old(self).pack_view(),
            final(self).storage_id() == old(self).storage_id(),
    {
        proof {
            self.lemma_mirror_facts();
        }
        if i == j {
            assert(swapped(self.dense@, i as int, j as int) =~= self.dense@);
            assert(swapped(self.data@, i as int, j as int) =~= self.data@);
            return ;
        }
        let a = self.dense[i];
        let b = self.dense[j];
        assert(a.spec_index() != b.spec_index());
        self.sparse.set(a.uindex(), Some(SparseEntry { position: j, gen: a.gen() }));
        self.sparse.set(b.uindex(), Some(SparseEntry { position: i, gen: b.gen() }));
        self.dense.as_mut_slice().swap(i, j);
        self.data.as_mut_slice().swap(i, j);
        proof {
            assert forall|k: int| 0 <= k < self.dense@.len() implies {
                &&& (#[trigger] self.dense@[k]).spec_index() < self.sparse@.len()
                &&& self.sparse@[self.dense@[k].spec_index() as int] matches Some(e)
                &&& e.position == k
                &&& e.gen == self.dense@[k].spec_gen()
            } by {
                if k != i && k != j {
                    assert(self.dense@[k] == old(self).dense@[k]);
                    assert(old(self).dense@[k].spec_index() != a.spec_index());
                    assert(old(self).dense@[k].spec_index() != b.spec_index());
                }
            }
            assert forall|k: int| 0 <= k < self.sparse@.len() implies (
            #[trigger] self.sparse@[k] matches Some(e) ==> {
                &&& e.position < self.dense@.len()
                &&& self.dense@[e.position as int].spec_index() == k
                &&& self.dense@[e.position as int].spec_gen() == e.gen
            }) by {
                if k != a.spec_index() && k != b.spec_index() {
                    assert(self.sparse@[k] == old(self).sparse@[k]);
                    if let Some(e) = self.sparse@[k] {
                        assert(e.position != i && e.position != j);
                    }
                }
            }
        }
    }

    /// Appends an entity whose slot no entity of the set occupies.
    fn push_entry(&mut self, id: EntityId, value: T)
        requires
            old(self).sparse_mirrors_dense(),
            id.spec_index() < usize::MAX,
            !old(self).model().slot_taken(id.spec_index()),
        ensures
            final(self).sparse_mirrors_dense(),
            final(self).ids() == old(self).ids().push(id),
            final(self).values() == old(self).values().push(value),
            final(self).pack_view() == old(self).pack_view(),
            final(self).storage_id() == old(self).storage_id(),
    {
        let index = id.uindex();
        while self.sparse.len() <= index
            invariant
                self.sparse_mirrors_dense(),
                self.dense@ == old(self).dense@,
                self.data@ == old(self).data@,
                self.pack_info@ == old(self).pack_info@,
                self.id == old(self).id,
                index < usize::MAX,
            decreases index + 1 - self.sparse.len(),
        {
            self.sparse.push(None);
        }
        proof {
            if let Some(e) = self.sparse@[index as int] {
                assert(old(self).model().ids[e.position as int].spec_index() == id.spec_index());
            }
        }
        let position = self.dense.len();
        self.sparse.set(index, Some(SparseEntry { position, gen: id.gen() }));
        self.dense.push(id);
        self.data.push(value);
        proof {
            assert forall|k: int| 0 <= k < self.dense@.len() implies {
                &&& (#[trigger] self.dense@[k]).spec_index() < self.sparse@.len()
                &&& self.sparse@[self.dense@[k].spec_index() as int] matches Some(e)
                &&& e.position == k
                &&& e.gen == self.dense@[k].spec_gen()
            } by {
                if k < position {
                    assert(self.dense@[k] == old(self).model().ids[k]);
                    assert(old(self).model().ids[k].spec_index() != id.spec_index());
                }
            }
        }
    }

    /// Drops the last entry of the dense array.
    fn pop_entry(&mut self) -> (entry: (EntityId, T))
        requires
            old(self).sparse_mirrors_dense(),
            old(self).ids().len() > 0,
        ensures
            final(self).sparse_mirrors_dense(),
            final(self).ids() == old(self).ids().drop_last(),
            final(self).values() == old(self).values().drop_last(),
            entry.0 == old(self).ids().last(),
            entry.1 == old(self).values().last(),
            final(self).pack_view() == old(self).pack_view(),
            final(self).storage_id() == old(self).storage_id(),
    {
        proof {
            self.lemma_mirror_facts();
        }
        let id = self.dense.pop().unwrap();
        let value = self.data.pop().unwrap();
        assert(id.spec_index() < self.sparse@.len());
        self.sparse.set(id.uindex(), None);
        proof {
            assert forall|k: int| 0 <= k < self.dense@.len() implies {
                &&& (#[trigger] self.dense@[k]).spec_index() < self.sparse@.len()
                &&& self.sparse@[self.dense@[k].spec_index() as int] matches Some(e)
                &&& e.position == k
                &&& e.gen == self.dense@[k].spec_gen()
            } by {
                assert(self.dense@[k] == old(self).dense@[k]);
                assert(old(self).dense@[k].spec_index() != id.spec_index());
            }
            assert forall|k: int| 0 <= k < self.sparse@.len() implies (
            #[trigger] self.sparse@[k] matches Some(e) ==> {
                &&& e.position < self.dense@.len()
                &&& self.dense@[e.position as int].spec_index() == k
                &&& self.dense@[e.position as int].spec_gen() == e.gen
            }) by {
                if k != id.spec_index() {
                    assert(self.sparse@[k] == old(self).sparse@[k]);
                }
            }
        }
        (id, value)
    }

    /// The two region bounds: see [`PackView`].
    fn bounds(&self) -> (bounds: (usize, usize))
        ensures
            bounds.0 == self.pack_view().lo,
            bounds.1 == self.pack_view().hi,
    {
        match &self.pack_info.pack {
            Pack::Tight(pack) => (pack.len, pack.len),
            Pack::Loose(pack) => (pack.len, pack.len),
            Pack::Update(pack) => (pack.inserted_end, pack.modified_end),
            Pack::NoPack => (0, 0),
        }
    }

    /// Replaces the region bounds.
    fn set_bounds(&mut self, lo: usize, hi: usize)
        requires
            old(self).pack_view().kind != PackKind::Update ==> lo == hi,
            old(self).pack_view().kind == PackKind::NoPack ==> hi == 0,
        ensures
            final(self).sparse_mirrors_dense() == old(self).sparse_mirrors_dense(),
            final(self).ids() == old(self).ids(),
            final(self).values() == old(self).values(),
            final(self).pack_view() == old(self).pack_view().with_bounds(lo as int, hi as int),
            final(self).storage_id() == old(self).storage_id(),
    {
        match &mut self.pack_info.pack {
            Pack::Tight(pack) => {
                pack.len = lo;
            },
            Pack::Loose(pack) => {
                pack.len = lo;
            },
            Pack::Update(pack) => {
                pack.inserted_end = lo;
                pack.modified_end = hi;
            },
            Pack::NoPack => {},
        }
    }

    /// Marks the entry at `p` modified and says where it stands then.
    fn mark_modified_at(&mut self, p: usize) -> (q: usize)
        requires
            old(self).wf(),
            p < old(self).ids().len(),
        ensures
            final(self).wf(),
            final(self).model() == old(self).model().mark_modified(p as int),
            final(self).storage_id() == old(self).storage_id(),
            q < final(self).ids().len(),
            final(self).ids()[q as int] == old(self).ids()[p as int],
            final(self).values()[q as int] == old(self).values()[p as int],
    {
        proof {
            lemma_mark_modified(self.model(), p as int);
            self.lemma_mirror_facts();
        }
        let (lo, hi) = self.bounds();
        let update = match &self.pack_info.pack {
            Pack::Update(_) => true,
            _ => false,
        };
        if update && p >= hi {
            self.swap_entries(p, hi);
            self.set_bounds(lo, hi + 1);
            hi
        } else {
            p
        }
    }

    /// Gives `id` the component `value`.
    ///
    /// If the set holds `id`, the component is overwritten and the old one
    /// handed back; under an update pack the entry then counts as modified
    /// unless it counts as inserted. Otherwise the entry is added: under
    /// an update pack to the inserted region, else at the end of the dense
    /// array. An entity of another generation that occupies the slot of
    /// `id` is taken out first, as [`SparseSet::actual_remove`] does.
    pub fn insert(&mut self, value: T, id: EntityId) -> (old_component: Option<OldComponent<T>>)
        requires
            old(self).wf(),
            id.spec_index() < usize::MAX,
        ensures
            final(self).wf(),
            final(self).storage_id() == old(self).storage_id(),
            final(self).model() == old(self).model().insert(id, value),
            old_component == (if old(self).has(id) {
                Some(OldComponent::Owned(old(self)@[id]))
            } else {
                None
            }),
            final(self)@.contains_key(id),
            final(self)@[id] == value,
    {
        proof {
            lemma_insert(self.model(), id, value);
        }
        match self.position(id) {
            Some(p) => {
                proof {
                    self.lemma_position(id, p as int);
                }
                let mut value = value;
                self.data.set_and_swap(p, &mut value);
                proof {
                    crate::model::lemma_updated(old(self).ids(), old(self).values(), p as int, self.values()[p as int]);
                }
                self.mark_modified_at(p);
                Some(OldComponent::Owned(value))
            },
            None => {
                match self.occupant_of(id.index()) {
                    Some(stale) => {
                        proof {
                            lemma_remove(self.model(), stale);
                        }
                        self.actual_remove(stale);
                    },
                    None => {},
                }
                let ghost mid = self.model();
                proof {
                    lemma_append(mid, id, value);
                }
                self.push_entry(id, value);
                let update = match &self.pack_info.pack {
                    Pack::Update(_) => true,
                    _ => false,
                };
                if update {
                    let (lo, hi) = self.bounds();
                    let last = self.dense.len() - 1;
                    self.swap_entries(hi, last);
                    self.swap_entries(lo, hi);
                    self.set_bounds(lo + 1, hi + 1);
                }
                None
            },
        }
    }

    /// Takes the component of `id` out of the set, if it has one.
    ///
    /// The entry first leaves each region that holds it, by changing
    /// places with the last entry of the region; then the last entry of
    /// the dense array takes its place. Under an update pack the component
    /// goes to the removed log and its position there is handed back;
    /// otherwise the component itself is.
    pub fn actual_remove(&mut self, id: EntityId) -> (old_component: Option<OldComponent<T>>)
        requires
            old(self).wf(),
        ensures
            final(self).wf(),
            final(self).storage_id() == old(self).storage_id(),
            final(self).model() == old(self).model().without(id),
            old_component == self::old_component(old(self).model(), id),
            final(self)@ == old(self)@.remove(id),
            !final(self).has(id),
            forall|i: int|
                0 <= i < final(self).ids().len() ==> {
                    &&& final(self).sparse()[(#[trigger] final(self).ids()[i]).spec_index() as int] matches Some(
                        entry,
                    )
                    &&& entry.position == i
                },
            old(self).has(id) && old(self).pack_view().kind != PackKind::Update ==> old_component
                == Some(OldComponent::Owned(old(self)@[id])),
    {
        match self.position(id) {
            None => {
                assert(self@.remove(id) =~= self@);
                None
            },
            Some(p) => {
                proof {
                    self.lemma_position(id, p as int);
                    lemma_remove(self.model(), id);
                    self.lemma_mirror_facts();
                }
                let (lo, hi) = self.bounds();
                let mut q = p;
                let mut new_lo = lo;
                let mut new_hi = hi;
                if q < lo {
                    self.swap_entries(q, lo - 1);
                    q = lo - 1;
                    new_lo = lo - 1;
                }
                if q < hi {
                    self.swap_entries(q, hi - 1);
                    q = hi - 1;
                    new_hi = hi - 1;
                }
                let last = self.dense.len() - 1;
                self.swap_entries(q, last);
                let (_, value) = self.pop_entry();
                self.set_bounds(new_lo, new_hi);
                assert(value == old(self).values()[p as int]);
                match &mut self.pack_info.pack {
                    Pack::Update(pack) => {
                        let at = pack.removed.len();
                        pack.removed.push((id, value));
                        Some(OldComponent::OldValue(at))
                    },
                    _ => Some(OldComponent::Owned(value)),
                }
            },
        }
    }

    /// Mutable access to the component of `id`, if it has one.
    ///
    /// The set cannot tell a read from a write: under an update pack the
    /// entry counts as modified from here on, unless it counts as inserted.
    pub fn get_mut(&mut self, id: EntityId) -> (value: Option<&mut T>)
        requires
            old(self).wf(),
        ensures
            value is Some <==> old(self).has(id),
            final(self).wf(),
            final(self).storage_id() == old(self).storage_id(),
            value is None ==> final(self).model() == old(self).model(),
            value matches Some(v) ==> {
                let m = old(self).model().mark_modified(old(self).position_of(id));
                &&& *v == old(self)@[id]
                &&& final(self).model() == Model {
                    values: m.values.update(m.position_of(id), *final(v)),
                    ..m
                }
                &&& final(self)@ == old(self)@.insert(id, *final(v))
            },
    {
        match self.position(id) {
            None => None,
            Some(p) => {
                proof {
                    self.lemma_position(id, p as int);
                    lemma_mark_modified(self.model(), p as int);
                }
                let q = self.mark_modified_at(p);
                proof {
                    lemma_index_of(self.ids(), q as int);
                    assert forall|x: T|
                        crate::model::components(self.ids(), #[trigger] self.values().update(q as int, x))
                            == old(self)@.insert(id, x) by {
                        crate::model::lemma_updated(self.ids(), self.values(), q as int, x);
                    }
                }
                Some(&mut self.data[q])
            },
        }
    }

    /// The entity at position `i` of the dense array.
    pub fn id_at(&self, i: usize) -> (id: EntityId)
        requires
            i < self.ids().len(),
        ensures
            id == self.ids()[i as int],
    {
        self.dense[i]
    }

    /// The component at position `i` of the dense array.
    pub fn value_at(&self, i: usize) -> (value: &T)
        requires
            self.wf(),
            i < self.ids().len(),
        ensures
            *value == self.values()[i as int],
    {
        &self.data[i]
    }

    /// Mutable access to the component at position `i`, for a traversal
    /// of the dense array that may write.
    ///
    /// Under an update pack the entry counts as modified from here on,
    /// unless it counts as inserted: an unchanged entry changes places
    /// with the first unchanged one, which a traversal in ascending order
    /// has passed already.
    pub fn value_at_mut(&mut self, i: usize) -> (value: &mut T)
        requires
            old(self).wf(),
            i < old(self).ids().len(),
        ensures
            final(self).wf(),
            final(self).storage_id() == old(self).storage_id(),
            *value == old(self).values()[i as int],
            ({
                let m = old(self).model().mark_modified(i as int);
                let q = m.position_of(old(self).ids()[i as int]);
                &&& final(self).model() == Model { values: m.values.update(q, *final(value)), ..m }
                &&& final(self)@ == old(self)@.insert(old(self).ids()[i as int], *final(value))
            }),
    {
        proof {
            self.lemma_position(self.ids()[i as int], i as int);
            lemma_mark_modified(self.model(), i as int);
        }
        let q = self.mark_modified_at(i);
        proof {
            lemma_index_of(self.ids(), q as int);
            assert forall|x: T|
                crate::model::components(self.ids(), #[trigger] self.values().update(q as int, x))
                    == old(self)@.insert(old(self).ids()[i as int], x) by {
                crate::model::lemma_updated(self.ids(), self.values(), q as int, x);
            }
        }
        &mut self.data[q]
    }

    /// The dense array.
    pub fn as_ids(&self) -> (ids: &[EntityId])
        ensures
            ids@ == self.ids(),
    {
        self.dense.as_slice()
    }

    /// The components, in the order of the dense array.
    pub fn as_slice(&self) -> (values: &[T])
        ensures
            values@ == self.values(),
    {
        self.data.as_slice()
    }

    /// Moves `id` into the packed prefix of a tight or loose pack, if the
    /// set holds it outside the prefix: the entry changes places with the
    /// first entry behind the prefix, which then grows over it.
    pub fn pack(&mut self, id: EntityId)
        requires
            old(self).wf(),
        ensures
            final(self).wf(),
            final(self).storage_id() == old(self).storage_id(),
            final(self).model() == old(self).model().pack_entity(id),
            final(self)@ == old(self)@,
    {
        proof {
            lemma_pack_entity(self.model(), id);
            self.lemma_mirror_facts();
        }
        match self.position(id) {
            Some(p) => {
                let grouped = match &self.pack_info.pack {
                    Pack::Tight(_) => true,
                    Pack::Loose(_) => true,
                    _ => false,
                };
                let (lo, _) = self.bounds();
                if grouped && p >= lo {
                    self.swap_entries(p, lo);
                    self.set_bounds(lo + 1, lo + 1);
                }
            },
            None => {},
        }
    }

    /// Moves `id` out of the packed prefix of a tight or loose pack, if
    /// the set holds it there: the entry changes places with the last
    /// entry of the prefix, which then shrinks.
    pub fn unpack(&mut self, id: EntityId)
        requires
            old(self).wf(),
        ensures
            final(self).wf(),
            final(self).storage_id() == old(self).storage_id(),
            final(self).model() == old(self).model().unpack_entity(id),
            final(self)@ == old(self)@,
    {
        proof {
            lemma_unpack_entity(self.model(), id);
        }
        match self.position(id) {
            Some(p) => {
                let grouped = match &self.pack_info.pack {
                    Pack::Tight(_) => true,
                    Pack::Loose(_) => true,
                    _ => false,
                };
                let (lo, _) = self.bounds();
                if grouped && p < lo {
                    self.swap_entries(p, lo - 1);
                    self.set_bounds(lo - 1, lo - 1);
                }
            },
            None => {},
        }
    }

    /// Whether the set tracks updates.
    pub fn is_update_packed(&self) -> (updates: bool)
        ensures
            updates == (self.pack_view().kind == PackKind::Update),
    {
        match &self.pack_info.pack {
            Pack::Update(_) => true,
            _ => false,
        }
    }

    /// Starts tracking updates. What the set holds counts as inserted.
    /// A set that tracks updates already is left as it is; one that takes
    /// part in a tight or loose pack is refused.
    pub fn try_update_pack(&mut self) -> (done: Result<(), error::Pack>)
        requires
            old(self).wf(),
        ensures
            final(self).wf(),
            final(self).storage_id() == old(self).storage_id(),
            done == (match old(self).pack_view().kind {
                PackKind::Tight => Err(error::Pack::AlreadyTightPack),
                PackKind::Loose => Err(error::Pack::AlreadyLoosePack),
                _ => Ok(()),
            }),
            final(self).model() == (if old(self).pack_view().kind == PackKind::NoPack {
                old(self).model().update_packed()
            } else {
                old(self).model()
            }),
    {
        match &self.pack_info.pack {
            Pack::Tight(_) => Err(error::Pack::AlreadyTightPack),
            Pack::Loose(_) => Err(error::Pack::AlreadyLoosePack),
            Pack::Update(_) => Ok(()),
            Pack::NoPack => {
                let len = self.dense.len();
                self.pack_info.pack = Pack::Update(
                    UpdatePack { inserted_end: len, modified_end: len, removed: Vec::new() },
                );
                Ok(())
            },
        }
    }

    /// Starts a tight pack over `types`, with nothing packed yet. A set
    /// that has a pack already is refused.
    pub fn try_tight_pack(&mut self, types: Vec<StorageId>) -> (done: Result<(), error::Pack>)
        requires
            old(self).wf(),
        ensures
            final(self).wf(),
            final(self).storage_id() == old(self).storage_id(),
            done == (match old(self).pack_view().kind {
                PackKind::Tight => Err(error::Pack::AlreadyTightPack),
                PackKind::Loose => Err(error::Pack::AlreadyLoosePack),
                PackKind::Update => Err(error::Pack::AlreadyUpdatePack),
                PackKind::NoPack => Ok(()),
            }),
            final(self).model() == (if done is Ok {
                old(self).model().tight_packed(types@)
            } else {
                old(self).model()
            }),
    {
        match &self.pack_info.pack {
            Pack::Tight(_) => Err(error::Pack::AlreadyTightPack),
            Pack::Loose(_) => Err(error::Pack::AlreadyLoosePack),
            Pack::Update(_) => Err(error::Pack::AlreadyUpdatePack),
            Pack::NoPack => {
                self.pack_info.pack = Pack::Tight(TightPack::new(types));
                Ok(())
            },
        }
    }

    /// Starts a loose pack, with nothing packed yet. A set that has a
    /// pack already is refused.
    pub fn try_loose_pack(&mut self, tight_types: Vec<StorageId>, loose_types: Vec<StorageId>) -> (done:
        Result<(), error::Pack>)
        requires
            old(self).wf(),
        ensures
            final(self).wf(),
            final(self).storage_id() == old(self).storage_id(),
            done == (match old(self).pack_view().kind {
                PackKind::Tight => Err(error::Pack::AlreadyTightPack),
                PackKind::Loose => Err(error::Pack::AlreadyLoosePack),
                PackKind::Update => Err(error::Pack::AlreadyUpdatePack),
                PackKind::NoPack => Ok(()),
            }),
            final(self).model() == (if done is Ok {
                old(self).model().loose_packed(tight_types@, loose_types@)
            } else {
                old(self).model()
            }),
    {
        match &self.pack_info.pack {
            Pack::Tight(_) => Err(error::Pack::AlreadyTightPack),
            Pack::Loose(_) => Err(error::Pack::AlreadyLoosePack),
            Pack::Update(_) => Err(error::Pack::AlreadyUpdatePack),
            Pack::NoPack => {
                self.pack_info.pack = Pack::Loose(LoosePack::new(tight_types, loose_types));
                Ok(())
            },
        }
    }

    /// Makes `observer` a storage to repair when an entity leaves this one.
    pub fn add_observer(&mut self, observer: StorageId)
        requires
            old(self).wf(),
        ensures
            final(self).wf(),
            final(self).storage_id() == old(self).storage_id(),
            final(self).model() == old(self).model().observed_by(observer),
    {
        if !crate::pack::contains_id(self.pack_info.observer_types.as_slice(), observer) {
            self.pack_info.observer_types.push(observer);
        }
    }

    /// The components inserted since the inserted region was last cleared.
    pub fn try_inserted(&self) -> (inserted: Result<&[T], error::NotUpdatePack>)
        requires
            self.wf(),
        ensures
            inserted is Ok <==> self.pack_view().kind == PackKind::Update,
            inserted matches Ok(s) ==> s@ == self.values().subrange(0, self.pack_view().lo),
    {
        match &self.pack_info.pack {
            Pack::Update(pack) => Ok(
                vstd::slice::slice_subrange(self.data.as_slice(), 0, pack.inserted_end),
            ),
            _ => Err(error::NotUpdatePack),
        }
    }

    /// The entities inserted since the inserted region was last cleared.
    pub fn try_inserted_ids(&self) -> (inserted: Result<&[EntityId], error::NotUpdatePack>)
        requires
            self.wf(),
        ensures
            inserted is Ok <==> self.pack_view().kind == PackKind::Update,
            inserted matches Ok(s) ==> s@ == self.ids().subrange(0, self.pack_view().lo),
    {
        match &self.pack_info.pack {
            Pack::Update(pack) => Ok(
                vstd::slice::slice_subrange(self.dense.as_slice(), 0, pack.inserted_end),
            ),
            _ => Err(error::NotUpdatePack),
        }
    }

    /// The components modified since the modified region was last cleared.
    pub fn try_modified(&self) -> (modified: Result<&[T], error::NotUpdatePack>)
        requires
            self.wf(),
        ensures
            modified is Ok <==> self.pack_view().kind == PackKind::Update,
            modified matches Ok(s) ==> s@ == self.values().subrange(
                self.pack_view().lo,
                self.pack_view().hi,
            ),
    {
        match &self.pack_info.pack {
            Pack::Update(pack) => Ok(
                vstd::slice::slice_subrange(
                    self.data.as_slice(),
                    pack.inserted_end,
                    pack.modified_end,
                ),
            ),
            _ => Err(error::NotUpdatePack),
        }
    }

    /// The entities modified since the modified region was last cleared.
    pub fn try_modified_ids(&self) -> (modified: Result<&[EntityId], error::NotUpdatePack>)
        requires
            self.wf(),
        ensures
            modified is Ok <==> self.pack_view().kind == PackKind::Update,
            modified matches Ok(s) ==> s@ == self.ids().subrange(
                self.pack_view().lo,
                self.pack_view().hi,
            ),
    {
        match &self.pack_info.pack {
            Pack::Update(pack) => Ok(
                vstd::slice::slice_subrange(
                    self.dense.as_slice(),
                    pack.inserted_end,
                    pack.modified_end,
                ),
            ),
            _ => Err(error::NotUpdatePack),
        }
    }

    /// The components inserted or modified since the regions were last cleared.
    pub fn try_inserted_or_modified(&self) -> (changed: Result<&[T], error::NotUpdatePack>)
        requires
            self.wf(),
        ensures
            changed is Ok <==> self.pack_view().kind == PackKind::Update,
            changed matches Ok(s) ==> s@ == self.values().subrange(0, self.pack_view().hi),
    {
        match &self.pack_info.pack {
            Pack::Update(pack) => Ok(
                vstd::slice::slice_subrange(self.data.as_slice(), 0, pack.modified_end),
            ),
            _ => Err(error::NotUpdatePack),
        }
    }

    /// Lets what counts as inserted count as unchanged. What counts as
    /// modified goes on doing so: with no modified entry only the bounds
    /// change; otherwise each inserted entry changes places with a
    /// modified one.
    pub fn try_clear_inserted(&mut self) -> (done: Result<(), error::NotUpdatePack>)
        requires
            old(self).wf(),
        ensures
            final(self).wf(),
            final(self).storage_id() == old(self).storage_id(),
            done is Ok <==> old(self).pack_view().kind == PackKind::Update,
            final(self).model() == old(self).model().clear_inserted(),
            final(self)@ == old(self)@,
            done is Ok ==> {
                &&& final(self).pack_view().lo == 0
                &&& final(self).pack_view().hi == old(self).pack_view().hi - old(self).pack_view().lo
                &&& forall|id: EntityId|
                    final(self).model().in_second_region(id) <==> old(self).model().in_second_region(
                        id,
                    )
                &&& old(self).pack_view().lo == old(self).pack_view().hi ==> final(self).model()
                    == old(self).model().clear_inserted_and_modified()
            },
            done is Err ==> final(self).model() == old(self).model(),
    {
        proof {
            lemma_clear_inserted(self.model());
            if self.pack_view().kind == PackKind::Update && self.pack_view().lo
                == self.pack_view().hi {
                crate::model::lemma_clear_inserted_alone(self.model());
            }
        }
        if !self.is_update_packed() {
            return Err(error::NotUpdatePack);
        }
        let (mut lo, mut hi) = self.bounds();
        if lo == hi {
            // no modified entry: nothing has to move
            self.set_bounds(0, 0);
            return Ok(());
        }
        while lo > 0
            invariant
                self.wf(),
                self.storage_id() == old(self).storage_id(),
                self.pack_view().kind == PackKind::Update,
                lo == self.pack_view().lo,
                hi == self.pack_view().hi,
                self.model().clear_inserted() == old(self).model().clear_inserted(),
            decreases lo,
        {
            proof {
                crate::model::lemma_swapped(self.ids(), self.values(), lo - 1, hi - 1);
            }
            self.swap_entries(lo - 1, hi - 1);
            lo = lo - 1;
            hi = hi - 1;
            self.set_bounds(lo, hi);
        }
        Ok(())
    }

    /// Lets what counts as modified count as unchanged.
    pub fn try_clear_modified(&mut self) -> (done: Result<(), error::NotUpdatePack>)
        requires
            old(self).wf(),
        ensures
            final(self).wf(),
            final(self).storage_id() == old(self).storage_id(),
            done is Ok <==> old(self).pack_view().kind == PackKind::Update,
            final(self).model() == old(self).model().clear_modified(),
            final(self)@ == old(self)@,
    {
        if !self.is_update_packed() {
            return Err(error::NotUpdatePack);
        }
        let (lo, _) = self.bounds();
        self.set_bounds(lo, lo);
        Ok(())
    }

    /// Lets what counts as inserted or modified count as unchanged.
    pub fn try_clear_inserted_and_modified(&mut self) -> (done: Result<(), error::NotUpdatePack>)
        requires
            old(self).wf(),
        ensures
            final(self).wf(),
            final(self).storage_id() == old(self).storage_id(),
            done is Ok <==> old(self).pack_view().kind == PackKind::Update,
            final(self).model() == old(self).model().clear_inserted_and_modified(),
            final(self)@ == old(self)@,
    {
        if !self.is_update_packed() {
            return Err(error::NotUpdatePack);
        }
        self.set_bounds(0, 0);
        Ok(())
    }

    /// Hands out the removed log and leaves it empty.
    pub fn try_take_removed(&mut self) -> (removed: Result<Vec<(EntityId, T)>, error::NotUpdatePack>)
        requires
            old(self).wf(),
        ensures
            final(self).wf(),
            final(self).storage_id() == old(self).storage_id(),
            removed is Ok <==> old(self).pack_view().kind == PackKind::Update,
            removed matches Ok(log) ==> log@ == old(self).pack_view().removed && final(self).model()
                == old(self).model().take_removed(),
            removed is Err ==> final(self).model() == old(self).model(),
    {
        match &mut self.pack_info.pack {
            Pack::Update(pack) => {
                let mut log: Vec<(EntityId, T)> = Vec::new();
                core::mem::swap(&mut pack.removed, &mut log);
                Ok(log)
            },
            _ => Err(error::NotUpdatePack),
        }
    }

    /// Takes out every component. Under an update pack each goes to the
    /// removed log, the last entry of the dense array first.
    pub fn clear(&mut self)
        requires
            old(self).wf(),
        ensures
            final(self).wf(),
            final(self).storage_id() == old(self).storage_id(),
            final(self).model() == old(self).model().cleared(),
            final(self)@ == Map::<EntityId, T>::empty(),
    {
        let update = self.is_update_packed();
        let ghost start = self.model();
        self.set_bounds(0, 0);
        while self.dense.len() > 0
            invariant
                self.sparse_mirrors_dense(),
                self.storage_id() == old(self).storage_id(),
                update == (start.pack.kind == PackKind::Update),
                self.ids().len() <= start.ids.len(),
                self.ids() == start.ids.subrange(0, self.ids().len() as int),
                self.values() == start.values.subrange(0, self.ids().len() as int),
                start.ids.len() == start.values.len(),
                self.pack_view() == (PackView {
                    lo: 0,
                    hi: 0,
                    removed: if update {
                        start.pack.removed + start.drained().subrange(
                            0,
                            start.ids.len() - self.ids().len(),
                        )
                    } else {
                        start.pack.removed
                    },
                    ..start.pack
                }),
            decreases self.dense.len(),
        {
            let (id, value) = self.pop_entry();
            match &mut self.pack_info.pack {
                Pack::Update(pack) => {
                    pack.removed.push((id, value));
                },
                _ => {},
            }
            proof {
                let n = start.ids.len() as int;
                let k = self.ids().len() as int;
                assert(start.ids.subrange(0, k + 1).drop_last() =~= start.ids.subrange(0, k));
                assert(start.values.subrange(0, k + 1).drop_last() =~= start.values.subrange(0, k));
                assert(start.drained().subrange(0, n - k) =~= start.drained().subrange(
                    0,
                    n - k - 1,
                ).push((id, value)));
                if update {
                    assert(self.pack_view().removed =~= start.pack.removed
                        + start.drained().subrange(0, n - k));
                }
            }
        }
        proof {
            assert(self.ids() =~= Seq::<EntityId>::empty());
            assert(self.values() =~= Seq::<T>::empty());
            assert(start.drained().subrange(0, start.ids.len() as int) =~= start.drained());
            assert(self@ =~= Map::<EntityId, T>::empty());
        }
    }

    /// Takes the component of `entity` out of the set, if it has one, and
    /// appends to `storage_to_unpack` the storages to repair afterwards:
    /// those packed with this one, then its observers.
    pub fn delete(&mut self, entity: EntityId, storage_to_unpack: &mut Vec<StorageId>)
        requires
            old(self).wf(),
        ensures
            final(self).wf(),
            final(self).storage_id() == old(self).storage_id(),
            final(self).model() == old(self).model().without(entity),
            !final(self).has(entity),
            final(storage_to_unpack)@ == old(storage_to_unpack)@ + old(self).model().siblings(),
    {
        self.actual_remove(entity);
        let ghost before = storage_to_unpack@;
        match &self.pack_info.pack {
            Pack::Tight(pack) => {
                crate::pack::append_ids(storage_to_unpack, pack.types.as_slice());
            },
            Pack::Loose(pack) => {
                crate::pack::append_ids(storage_to_unpack, pack.tight_types.as_slice());
            },
            _ => {},
        }
        crate::pack::append_ids(storage_to_unpack, self.pack_info.observer_types.as_slice());
        proof {
            assert(storage_to_unpack@ =~= before + self.model().siblings());
        }
    }

    /// Replaces every component at once, for work on all of them outside
    /// the set: `values` holds the new components in the order of the
    /// dense array, and the old ones are handed back in that order. Under
    /// an update pack all that the set holds counts as modified then,
    /// unless it counts as inserted. A list of another length is refused
    /// and handed back.
    pub fn replace_values(&mut self, values: Vec<T>) -> (replaced: Result<Vec<T>, Vec<T>>)
        requires
            old(self).wf(),
        ensures
            final(self).wf(),
            final(self).storage_id() == old(self).storage_id(),
            values@.len() != old(self).ids().len() ==> replaced == Err::<Vec<T>, Vec<T>>(values)
                && final(self).model() == old(self).model(),
            values@.len() == old(self).ids().len() ==> replaced is Ok && replaced->Ok_0@ == old(self).values() && final(self).model() == old(self).model().with_values(values@),
    {
        if values.len() != self.dense.len() {
            return Err(values);
        }
        let mut values = values;
        core::mem::swap(&mut self.data, &mut values);
        if self.is_update_packed() {
            let (lo, _) = self.bounds();
            let len = self.dense.len();
            self.set_bounds(lo, len);
        }
        Ok(values)
    }
}

} // verus!

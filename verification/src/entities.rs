//! The entity table: issues identifiers, tracks generations and recycles
//! the slots of killed entities.

use crate::entity_id::{EntityId, DEAD_INDEX, MAX_GEN};
use vstd::prelude::*;

verus! {

/// One slot of the table as plain values.
pub struct SlotView {
    /// Generation of the identifier that the slot holds, or will hold next.
    pub gen: int,
    /// Whether an entity lives in the slot.
    pub alive: bool,
}

/// The entity table as plain values.
pub struct EntitiesView {
    pub slots: Seq<SlotView>,
    /// Slots waiting to be reused; the first is taken next.
    pub free: Seq<int>,
}

impl EntitiesView {
    /// Whether `id` names a living entity: its slot is alive and holds
    /// the generation of `id`.
    pub open spec fn alive(self, id: EntityId) -> bool {
        &&& id.spec_index() < self.slots.len()
        &&& self.slots[id.spec_index() as int].alive
        &&& self.slots[id.spec_index() as int].gen == id.spec_gen()
    }

    /// Whether the slot of `id` has moved past the generation of `id`.
    pub open spec fn spent(self, id: EntityId) -> bool {
        &&& id.spec_index() < self.slots.len()
        &&& id.spec_gen() < self.slots[id.spec_index() as int].gen
    }

    /// Whether a slot is left for one more entity.
    pub open spec fn has_room(self) -> bool {
        self.free.len() > 0 || self.slots.len() < DEAD_INDEX
    }

    /// The identifier that the next allocation issues.
    pub open spec fn next_id(self) -> EntityId {
        if self.free.len() > 0 {
            EntityId::from_parts(self.free[0] as u64, self.slots[self.free[0]].gen as u64)
        } else {
            EntityId::from_parts(self.slots.len() as u64, 0)
        }
    }

    /// The table after an allocation: the first free slot comes alive
    /// with the generation it holds, or a new slot is added.
    pub open spec fn allocate(self) -> EntitiesView {
        if self.free.len() > 0 {
            EntitiesView {
                slots: self.slots.update(
                    self.free[0],
                    SlotView { gen: self.slots[self.free[0]].gen, alive: true },
                ),
                free: self.free.drop_first(),
            }
        } else {
            EntitiesView { slots: self.slots.push(SlotView { gen: 0, alive: true }), free: self.free }
        }
    }

    /// The table after `id` was killed: a dead identifier changes nothing;
    /// the slot of a living one moves to the next generation and waits to
    /// be reused, unless its generations are used up.
    pub open spec fn kill(self, id: EntityId) -> EntitiesView {
        if self.alive(id) {
            EntitiesView {
                slots: self.slots.update(
                    id.spec_index() as int,
                    SlotView { gen: id.spec_gen() + 1, alive: false },
                ),
                free: if id.spec_gen() < MAX_GEN {
                    seq![id.spec_index() as int] + self.free
                } else {
                    self.free
                },
            }
        } else {
            self
        }
    }

    /// The table after every entity was killed, slot by slot in ascending order.
    pub open spec fn kill_all(self, upto: int) -> EntitiesView
        decreases upto,
    {
        if upto <= 0 {
            self
        } else {
            let before = self.kill_all(upto - 1);
            if before.slots[upto - 1].alive {
                before.kill(
                    EntityId::from_parts((upto - 1) as u64, before.slots[upto - 1].gen as u64),
                )
            } else {
                before
            }
        }
    }

    /// Being reachable is reflexive and transitive.
    pub proof fn lemma_follows_chain(first: EntitiesView, second: EntitiesView, third: EntitiesView)
        requires
            second.follows(first),
            third.follows(second),
        ensures
            first.follows(first),
            third.follows(first),
    {
        assert forall|i: int| 0 <= i < first.slots.len() implies (#[trigger] first.slots[i]).gen
            <= third.slots[i].gen by {
            assert(first.slots[i].gen <= second.slots[i].gen);
            assert(second.slots[i].gen <= third.slots[i].gen);
        }
    }

    /// Generation safety: an identifier whose slot has moved past its
    /// generation, as the slot of a killed entity has, is dead in every
    /// table reached later, whoever reuses the slot.
    pub proof fn lemma_spent_stays_dead(earlier: EntitiesView, later: EntitiesView, id: EntityId)
        requires
            earlier.spent(id),
            later.follows(earlier),
        ensures
            later.spent(id),
            !later.alive(id),
    {
        assert(earlier.slots[id.spec_index() as int].gen <= later.slots[id.spec_index() as int].gen);
    }

    /// Generation safety, spelled out for one reuse: after a living
    /// entity was killed, an allocation never issues its identifier again
    /// and leaves it dead.
    pub proof fn lemma_kill_then_allocate(table: EntitiesView, id: EntityId)
        requires
            table.wf(),
            table.alive(id),
        ensures
            table.kill(id).allocate().spent(id),
            !table.kill(id).allocate().alive(id),
            table.kill(id).next_id() != id,
            table.kill(id).allocate().alive(table.kill(id).next_id()),
    {
        let killed = table.kill(id);
        let next = killed.next_id();
        EntityId::lemma_from_own_parts(id);
        if killed.free.len() > 0 {
            assert(killed.free[0] == id.spec_index() || killed.free[0] == table.free[0]) by {
                if id.spec_gen() < MAX_GEN {
                } else {
                }
            }
            if killed.free[0] != id.spec_index() as int {
                assert(table.free[0] == killed.free[0]);
                assert(0 <= table.free[0] < table.slots.len());
            }
            let slot = killed.free[0];
            assert(0 <= slot < DEAD_INDEX);
            assert(0 <= killed.slots[slot].gen <= MAX_GEN) by {
                if slot != id.spec_index() as int {
                    assert(killed.slots[slot] == table.slots[slot]);
                    assert(table.slots[table.free[0]].gen <= MAX_GEN);
                }
            }
            EntityId::lemma_parts_of_made(slot as u64, killed.slots[slot].gen as u64);
        } else {
            EntityId::lemma_parts_of_made(killed.slots.len() as u64, 0);
        }
    }

    /// Invariant of the table.
    pub open spec fn wf(self) -> bool {
        &&& self.slots.len() <= DEAD_INDEX
        &&& self.free.no_duplicates()
        &&& forall|i: int|
            0 <= i < self.slots.len() ==> {
                &&& 0 <= (#[trigger] self.slots[i]).gen <= MAX_GEN + 1
                &&& self.slots[i].alive ==> self.slots[i].gen <= MAX_GEN
            }
        &&& forall|k: int|
            0 <= k < self.free.len() ==> {
                &&& 0 <= #[trigger] self.free[k] < self.slots.len()
                &&& !self.slots[self.free[k]].alive
                &&& self.slots[self.free[k]].gen <= MAX_GEN
            }
    }

    /// `self` can be reached from `earlier`: no slot was lost and no
    /// generation went back.
    pub open spec fn follows(self, earlier: EntitiesView) -> bool {
        &&& earlier.slots.len() <= self.slots.len()
        &&& forall|i: int|
            0 <= i < earlier.slots.len() ==> (#[trigger] earlier.slots[i]).gen <= self.slots[i].gen
    }
}

/// One slot of the table.
#[derive(Clone, Copy, Debug)]
pub struct Slot {
    gen: u64,
    alive: bool,
    /// Link of the free list, for a slot that waits to be reused.
    next_free: Option<usize>,
}

/// The entity table.
pub struct Entities {
    slots: Vec<Slot>,
    /// First slot of the free list.
    free_head: Option<usize>,
    /// The free list, first slot first.
    free: Ghost<Seq<int>>,
}

impl View for Entities {
    type V = EntitiesView;

    closed spec fn view(&self) -> EntitiesView {
        EntitiesView {
            slots: Seq::new(
                self.slots@.len(),
                |i: int| SlotView { gen: self.slots@[i].gen as int, alive: self.slots@[i].alive },
            ),
            free: self.free@,
        }
    }
}

impl Entities {
    /// The free list is threaded through the slots as the view says.
    pub closed spec fn linked(&self) -> bool {
        &&& self.free_head == (if self.free@.len() == 0 {
            None
        } else {
            Some(self.free@[0] as usize)
        })
        &&& forall|k: int|
            0 <= k < self.free@.len() ==> 0 <= #[trigger] self.free@[k] < self.slots@.len()
                && self.slots@[self.free@[k]].next_free == (if k + 1 < self.free@.len() {
                Some(self.free@[k + 1] as usize)
            } else {
                None
            })
    }

    /// Invariant of the table.
    pub open spec fn wf(&self) -> bool {
        &&& self@.wf()
        &&& self.linked()
    }

    /// An empty table.
    pub fn new() -> (entities: Entities)
        ensures
            entities.wf(),
            entities@.slots == Seq::<SlotView>::empty(),
            entities@.free == Seq::<int>::empty(),
    {
        let entities = Entities { slots: Vec::new(), free_head: None, free: Ghost(Seq::empty()) };
        assert(entities@.slots =~= Seq::<SlotView>::empty());
        entities
    }

    /// Whether `id` names a living entity.
    pub fn is_alive(&self, id: EntityId) -> (alive: bool)
        requires
            self.wf(),
        ensures
            alive == self@.alive(id),
            alive ==> id.spec_index() < usize::MAX,
    {
        proof {
            vstd::std_specs::vec::axiom_spec_len(&self.slots);
        }
        let index = id.index();
        if index >= self.slots.len() as u64 {
            return false;
        }
        let slot = self.slots[index as usize];
        slot.alive && slot.gen == id.gen()
    }

    /// Whether a slot is left for one more entity.
    pub fn has_room(&self) -> (room: bool)
        requires
            self.wf(),
        ensures
            room == self@.has_room(),
    {
        self.free_head.is_some() || (self.slots.len() as u64) < DEAD_INDEX
    }

    /// Number of slots, alive or not.
    pub fn slot_count(&self) -> (count: usize)
        ensures
            count == self@.slots.len(),
    {
        self.slots.len()
    }

    /// Issues the identifier of a new entity. The slot killed last is
    /// reused first; without a free slot the table grows by one.
    pub fn allocate(&mut self) -> (id: EntityId)
        requires
            old(self).wf(),
            old(self)@.has_room(),
        ensures
            final(self).wf(),
            id == old(self)@.next_id(),
            final(self)@ == old(self)@.allocate(),
            final(self)@.alive(id),
            !old(self)@.alive(id),
            !old(self)@.spent(id),
            !id.spec_is_dead(),
            id.spec_index() < usize::MAX,
            final(self)@.follows(old(self)@),
            forall|other: EntityId| other != id ==> final(self)@.alive(other) == old(self)@.alive(other),
    {
        proof {
            vstd::std_specs::vec::axiom_spec_len(&self.slots);
        }
        match self.free_head {
            Some(i) => {
                assert(self.free@[0] == i);
                assert(i < self.slots@.len() <= usize::MAX);
                let slot = self.slots[i];
                self.free_head = slot.next_free;
                self.slots.set(i, Slot { gen: slot.gen, alive: true, next_free: None });
                let ghost rest = self.free@.drop_first();
                self.free = Ghost(rest);
                let id = EntityId::new(i as u64, slot.gen);
                proof {
                    assert(self@.slots =~= old(self)@.slots.update(
                        i as int,
                        SlotView { gen: slot.gen as int, alive: true },
                    ));
                    assert forall|k: int| 0 <= k < rest.len() implies rest[k] != i by {
                        assert(old(self).free@[k + 1] == rest[k]);
                    }
                    assert forall|k: int| 0 <= k < rest.len() implies 0 <= #[trigger] rest[k]
                        < self.slots@.len() && self.slots@[rest[k]].next_free == (if k + 1
                        < rest.len() {
                        Some(rest[k + 1] as usize)
                    } else {
                        None
                    }) by {
                        assert(old(self).free@[k + 1] == rest[k]);
                    }
                    assert forall|k: int| 0 <= k < rest.len() implies {
                        &&& 0 <= #[trigger] self@.free[k] < self@.slots.len()
                        &&& !self@.slots[self@.free[k]].alive
                        &&& self@.slots[self@.free[k]].gen <= MAX_GEN
                    } by {
                        assert(old(self)@.free[k + 1] == rest[k]);
                    }
                    assert forall|other: EntityId| other != id implies self@.alive(other) == old(self)@.alive(other) by {
                        if other.spec_index() == id.spec_index() && other.spec_gen()
                            == id.spec_gen() {
                            EntityId::lemma_parts_determine(other, id);
                        }
                    }
                }
                id
            },
            None => {
                let i = self.slots.len();
                self.slots.push(Slot { gen: 0, alive: true, next_free: None });
                let id = EntityId::new(i as u64, 0);
                proof {
                    vstd::std_specs::vec::axiom_spec_len(&self.slots);
                    assert(self@.slots =~= old(self)@.slots.push(SlotView { gen: 0, alive: true }));
                    assert forall|other: EntityId| other != id implies self@.alive(other) == old(self)@.alive(other) by {
                        if other.spec_index() == id.spec_index() && other.spec_gen()
                            == id.spec_gen() {
                            EntityId::lemma_parts_determine(other, id);
                        }
                    }
                }
                id
            },
        }
    }

    /// Kills the entity `id` and says whether this call did: a dead
    /// identifier changes nothing. The slot moves to the next generation
    /// and is put first on the free list, unless its generations are used
    /// up; then it is never reused.
    pub fn kill(&mut self, id: EntityId) -> (killed: bool)
        requires
            old(self).wf(),
        ensures
            final(self).wf(),
            killed == old(self)@.alive(id),
            final(self)@ == old(self)@.kill(id),
            !final(self)@.alive(id),
            killed ==> final(self)@.spent(id),
            !killed ==> *final(self) == *old(self),
            final(self)@.follows(old(self)@),
            forall|other: EntityId| other != id ==> final(self)@.alive(other) == old(self)@.alive(other),
    {
        if !self.is_alive(id) {
            return false;
        }
        proof {
            vstd::std_specs::vec::axiom_spec_len(&self.slots);
        }
        let i = id.uindex();
        let gen = id.gen();
        if gen < MAX_GEN {
            self.slots.set(i, Slot { gen: gen + 1, alive: false, next_free: self.free_head });
            self.free_head = Some(i);
            let ghost list = seq![i as int] + self.free@;
            self.free = Ghost(list);
            proof {
                assert(self@.free =~= seq![id.spec_index() as int] + old(self)@.free);
                assert forall|k: int| 0 <= k < list.len() implies 0 <= #[trigger] list[k]
                    < self.slots@.len() && self.slots@[list[k]].next_free == (if k + 1
                    < list.len() {
                    Some(list[k + 1] as usize)
                } else {
                    None
                }) by {
                    if k > 0 {
                        assert(old(self).free@[k - 1] == list[k]);
                        assert(!old(self)@.slots[old(self)@.free[k - 1]].alive);
                    }
                }
                assert forall|k: int| 0 <= k < list.len() implies {
                    &&& 0 <= #[trigger] self@.free[k] < self@.slots.len()
                    &&& !self@.slots[self@.free[k]].alive
                    &&& self@.slots[self@.free[k]].gen <= MAX_GEN
                } by {
                    if k > 0 {
                        assert(old(self)@.free[k - 1] == list[k]);
                    }
                }
                assert(list.no_duplicates()) by {
                    assert forall|a: int, b: int|
                        0 <= a < list.len() && 0 <= b < list.len() && a != b implies list[a]
                        != list[b] by {
                        if a > 0 {
                            assert(old(self)@.free[a - 1] == list[a]);
                            assert(!old(self)@.slots[old(self)@.free[a - 1]].alive);
                        }
                        if b > 0 {
                            assert(old(self)@.free[b - 1] == list[b]);
                            assert(!old(self)@.slots[old(self)@.free[b - 1]].alive);
                        }
                    }
                }
            }
        } else {
            self.slots.set(i, Slot { gen: gen + 1, alive: false, next_free: None });
            proof {
                assert forall|k: int| 0 <= k < self.free@.len() implies self.free@[k] != i by {
                    assert(!old(self)@.slots[old(self)@.free[k]].alive);
                }
            }
        }
        proof {
            assert(self@.slots =~= old(self)@.slots.update(
                id.spec_index() as int,
                SlotView { gen: id.spec_gen() + 1, alive: false },
            ));
            assert forall|other: EntityId| other != id implies self@.alive(other) == old(self)@.alive(other) by {
                if other.spec_index() == id.spec_index() && other.spec_gen() == id.spec_gen() {
                    EntityId::lemma_parts_determine(other, id);
                }
            }
        }
        true
    }

    /// Kills every entity, slot by slot in ascending order.
    pub fn clear(&mut self)
        requires
            old(self).wf(),
        ensures
            final(self).wf(),
            final(self)@ == old(self)@.kill_all(old(self)@.slots.len() as int),
            final(self)@.follows(old(self)@),
            forall|id: EntityId| !final(self)@.alive(id),
    {
        let n = self.slots.len();
        let mut i: usize = 0;
        proof {
            EntitiesView::lemma_follows_chain(self@, self@, self@);
        }
        while i < n
            invariant
                self.wf(),
                i <= n,
                n == self@.slots.len(),
                n == old(self)@.slots.len(),
                self@ == old(self)@.kill_all(i as int),
                self@.follows(old(self)@),
                forall|id: EntityId| id.spec_index() < i ==> !self@.alive(id),
            decreases n - i,
        {
            let slot = self.slots[i];
            let ghost before = self@;
            if slot.alive {
                assert(self@.slots[i as int].alive && self@.slots[i as int].gen == slot.gen);
                let id = EntityId::new(i as u64, slot.gen);
                self.kill(id);
                proof {
                    EntitiesView::lemma_follows_chain(old(self)@, before, self@);
                    assert forall|other: EntityId| other.spec_index() < i + 1 implies !self@.alive(
                        other,
                    ) by {
                        if other != id {
                            assert(self@.alive(other) == before.alive(other));
                        }
                    }
                }
            } else {
                proof {
                    assert forall|other: EntityId| other.spec_index() < i + 1 implies !self@.alive(
                        other,
                    ) by {}
                }
            }
            i += 1;
        }
    }
}

} // verus!

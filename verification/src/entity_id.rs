//! Entity identifiers: an index and a generation packed in 64 bits.

use vstd::prelude::*;

verus! {

/// Number of values the index field can take (2^48).
pub const INDEX_LIMIT: u64 = 0x1_0000_0000_0000;

/// Largest generation an identifier can carry (2^16 - 1).
pub const MAX_GEN: u64 = 0xFFFF;

/// Index reserved for the dead identifier; no slot ever has it.
pub const DEAD_INDEX: u64 = 0xFFFF_FFFF_FFFF;

/// Handle to an entity.
///
/// The low 48 bits hold the index of the entity's slot, the high 16 bits
/// the generation of that slot at the time the identifier was issued.
/// Two identifiers are equal exactly when all 64 bits are.
#[derive(Clone, Copy, Debug, PartialEq, Eq, Hash, Structural)]
pub struct EntityId(u64);

impl EntityId {
    /// The 64 bits of the identifier.
    pub closed spec fn bits(self) -> u64 {
        self.0
    }

    /// Slot index named by the identifier.
    pub open spec fn spec_index(self) -> u64 {
        (self.bits() % INDEX_LIMIT) as u64
    }

    /// Generation carried by the identifier.
    pub open spec fn spec_gen(self) -> u64 {
        (self.bits() / INDEX_LIMIT) as u64
    }

    /// The identifier made of `index` and `gen`.
    pub open spec fn from_parts(index: u64, gen: u64) -> EntityId
        recommends
            index < INDEX_LIMIT,
            gen <= MAX_GEN,
    {
        EntityId::from_bits((gen * INDEX_LIMIT + index) as u64)
    }

    /// The identifier whose 64 bits are `bits`.
    pub closed spec fn from_bits(bits: u64) -> EntityId {
        EntityId(bits)
    }

    /// Whether this is the distinguished dead identifier's index.
    pub open spec fn spec_is_dead(self) -> bool {
        self.spec_index() == DEAD_INDEX
    }

    /// Assembles an identifier from an index and a generation.
    pub fn new(index: u64, gen: u64) -> (id: EntityId)
        requires
            index < INDEX_LIMIT,
            gen <= MAX_GEN,
        ensures
            id == EntityId::from_parts(index, gen),
            id.spec_index() == index,
            id.spec_gen() == gen,
    {
        EntityId(gen * INDEX_LIMIT + index)
    }

    /// Identifier with index 0 and generation 0.
    pub fn zero() -> (id: EntityId)
        ensures
            id == EntityId::from_parts(0, 0),
            id.spec_index() == 0,
            id.spec_gen() == 0,
    {
        EntityId(0)
    }

    /// The dead identifier: every bit set.
    pub fn dead() -> (id: EntityId)
        ensures
            id == EntityId::from_parts(DEAD_INDEX, MAX_GEN),
            id.spec_is_dead(),
    {
        EntityId(0xFFFF_FFFF_FFFF_FFFF)
    }

    #[verifier::when_used_as_spec(spec_is_dead)]
    pub fn is_dead(self) -> (dead: bool)
        ensures
            dead == self.spec_is_dead(),
    {
        self.0 % INDEX_LIMIT == DEAD_INDEX
    }

    #[verifier::when_used_as_spec(spec_index)]
    pub fn index(self) -> (index: u64)
        ensures
            index == self.spec_index(),
            index < INDEX_LIMIT,
    {
        self.0 % INDEX_LIMIT
    }

    #[verifier::when_used_as_spec(spec_gen)]
    pub fn gen(self) -> (gen: u64)
        ensures
            gen == self.spec_gen(),
            gen <= MAX_GEN,
    {
        self.0 / INDEX_LIMIT
    }

    /// Index as a position in a slot array.
    pub fn uindex(self) -> (index: usize)
        requires
            self.spec_index() <= usize::MAX,
        ensures
            index == self.spec_index(),
    {
        (self.0 % INDEX_LIMIT) as usize
    }

    /// Replaces the index, keeping the generation.
    pub fn set_index(&mut self, index: u64)
        requires
            index < INDEX_LIMIT,
        ensures
            *final(self) == EntityId::from_parts(index, old(self).spec_gen()),
            final(self).spec_index() == index,
            final(self).spec_gen() == old(self).spec_gen(),
    {
        self.0 = (self.0 / INDEX_LIMIT) * INDEX_LIMIT + index;
    }

    /// Replaces the generation, keeping the index.
    pub fn set_gen(&mut self, gen: u64)
        requires
            gen <= MAX_GEN,
        ensures
            *final(self) == EntityId::from_parts(old(self).spec_index(), gen),
            final(self).spec_index() == old(self).spec_index(),
            final(self).spec_gen() == gen,
    {
        self.0 = gen * INDEX_LIMIT + self.0 % INDEX_LIMIT;
    }

    /// An identifier is determined by its index and generation.
    pub proof fn lemma_parts_determine(a: EntityId, b: EntityId)
        requires
            a.spec_index() == b.spec_index(),
            a.spec_gen() == b.spec_gen(),
        ensures
            a == b,
    {
        assert(a.bits() == b.bits());
    }

    /// Every identifier is the one made of its own parts.
    pub proof fn lemma_from_own_parts(a: EntityId)
        ensures
            a == EntityId::from_parts(a.spec_index(), a.spec_gen()),
            a.spec_index() < INDEX_LIMIT,
            a.spec_gen() <= MAX_GEN,
    {
    }

    /// Taking an identifier apart gives back what it was made of.
    pub proof fn lemma_parts_of_made(index: u64, gen: u64)
        requires
            index < INDEX_LIMIT,
            gen <= MAX_GEN,
        ensures
            EntityId::from_parts(index, gen).spec_index() == index,
            EntityId::from_parts(index, gen).spec_gen() == gen,
    {
    }
}

} // verus!

//! Identifiers of storages and their total order.

use core::cmp::Ordering;
use vstd::prelude::*;
use vstd::std_specs::cmp::PartialOrdSpecImpl;
use vstd::std_specs::convert::FromSpecImpl;

verus! {

/// Names one storage of a world.
///
/// `TypeId` carries the 64-bit key of a component type's runtime type
/// identifier, `Custom` a key chosen by the caller.
#[derive(Clone, Copy, Debug, PartialEq, Eq, Hash, Ord, Structural)]
pub enum StorageId {
    Custom(u64),
    TypeId(u64),
}

impl StorageId {
    /// Strict order: every `Custom` id is below every `TypeId` id, and
    /// within a family ids are ordered by their keys.
    pub open spec fn below(self, other: StorageId) -> bool {
        match (self, other) {
            (StorageId::Custom(a), StorageId::Custom(b)) => a < b,
            (StorageId::Custom(_), StorageId::TypeId(_)) => true,
            (StorageId::TypeId(_), StorageId::Custom(_)) => false,
            (StorageId::TypeId(a), StorageId::TypeId(b)) => a < b,
        }
    }

    /// Three-way comparison that goes with [`StorageId::below`].
    pub open spec fn compare(self, other: StorageId) -> Ordering {
        if self.below(other) {
            Ordering::Less
        } else if other.below(self) {
            Ordering::Greater
        } else {
            Ordering::Equal
        }
    }

    /// Compares two ids in the total order of storage ids.
    pub fn cmp(&self, other: &StorageId) -> (order: Ordering)
        ensures
            order == self.compare(*other),
            order == Ordering::Equal <==> *self == *other,
    {
        match self {
            StorageId::TypeId(id) => match other {
                StorageId::TypeId(other_id) => if *id < *other_id {
                    Ordering::Less
                } else if *id > *other_id {
                    Ordering::Greater
                } else {
                    Ordering::Equal
                },
                StorageId::Custom(_) => Ordering::Greater,
            },
            StorageId::Custom(id) => match other {
                StorageId::Custom(other_id) => if *id < *other_id {
                    Ordering::Less
                } else if *id > *other_id {
                    Ordering::Greater
                } else {
                    Ordering::Equal
                },
                StorageId::TypeId(_) => Ordering::Less,
            },
        }
    }

    /// Whether `self` comes strictly before `other`.
    pub fn precedes(&self, other: &StorageId) -> (before: bool)
        ensures
            before == self.below(*other),
    {
        match self.cmp(other) {
            Ordering::Less => true,
            _ => false,
        }
    }

    /// The order is irreflexive, transitive and total.
    pub proof fn lemma_total_order(a: StorageId, b: StorageId, c: StorageId)
        ensures
            !a.below(a),
            a.below(b) && b.below(c) ==> a.below(c),
            a.below(b) || b.below(a) || a == b,
            !(a.below(b) && b.below(a)),
    {
    }
}

impl PartialOrd for StorageId {
    fn partial_cmp(&self, other: &StorageId) -> (order: Option<Ordering>) {
        Some(self.cmp(other))
    }
}

impl PartialOrdSpecImpl for StorageId {
    open spec fn obeys_partial_cmp_spec() -> bool {
        true
    }

    open spec fn partial_cmp_spec(&self, other: &StorageId) -> Option<Ordering> {
        Some(self.compare(*other))
    }
}

impl From<u64> for StorageId {
    fn from(key: u64) -> (id: StorageId) {
        StorageId::Custom(key)
    }
}

impl FromSpecImpl<u64> for StorageId {
    open spec fn obeys_from_spec() -> bool {
        true
    }

    open spec fn from_spec(key: u64) -> StorageId {
        StorageId::Custom(key)
    }
}

} // verus!

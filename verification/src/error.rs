//! Errors returned by storages and bulk operations.

use crate::storage_id::StorageId;
use vstd::prelude::*;

verus! {

/// Why a borrow of a storage cell was denied.
#[derive(Clone, Copy, Debug, PartialEq, Eq, Structural)]
pub enum Borrow {
    /// A shared borrow met an exclusive borrower.
    Shared,
    /// An exclusive borrow met another borrower.
    Exclusive,
    /// The cell is bound to another thread.
    WrongThread,
}

/// Why a typed view of a storage could not be had.
#[derive(Clone, Copy, Debug, PartialEq, Eq, Structural)]
pub enum GetStorage {
    /// The cell of the named storage denied the borrow.
    StorageBorrow(StorageId, Borrow),
    /// A unique resource was asked of the named storage, which holds none.
    NonUnique(StorageId, Borrow),
    /// A component container was asked of the named storage, which holds
    /// a unique resource.
    Unique(StorageId, Borrow),
}

/// Why components were not added to an entity.
#[derive(Clone, Copy, Debug, PartialEq, Eq, Structural)]
pub enum AddComponent {
    /// The entity's generation is no longer current.
    EntityIsNotAlive,
    /// The named storage is packed with, or observed by, a storage that
    /// the caller did not pass.
    MissingPackStorage(StorageId),
}

/// Why components were not removed from an entity.
#[derive(Clone, Copy, Debug, PartialEq, Eq, Structural)]
pub enum Remove {
    /// The named storage is packed with, or observed by, a storage that
    /// the caller did not pass.
    MissingPackStorage(StorageId),
}

/// Why a storage could not be packed.
#[derive(Clone, Copy, Debug, PartialEq, Eq, Structural)]
pub enum Pack {
    /// The storage already takes part in a tight pack.
    AlreadyTightPack,
    /// The storage already takes part in a loose pack.
    AlreadyLoosePack,
    /// The storage already tracks updates.
    AlreadyUpdatePack,
}

/// The storage does not track updates.
#[derive(Clone, Copy, Debug, PartialEq, Eq, Structural)]
pub struct NotUpdatePack;

} // verus!

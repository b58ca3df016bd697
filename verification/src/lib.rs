//! Component storage core of an entity-component-system runtime.
//!
//! Entities are identifiers issued by an [`Entities`] table; components
//! of one type live in a [`SparseSet`], which a world keeps in a
//! [`Storage`] of its [`AllStorages`] registry. Storages can be packed:
//! an update pack logs what was inserted, modified and removed; a tight
//! or loose pack keeps the entities that several storages share at the
//! front of their dense arrays. Bulk operations add and remove the
//! components of one entity in several storages at once and keep the
//! packs in order.
//!
//! Every function states what it does over mathematical models of the
//! data: [`model::Model`] for a sparse set, [`entities::EntitiesView`]
//! for the entity table, a map from ids to storages for the registry.

pub mod add_component;
pub mod all_storages;
pub mod atomic_refcell;
pub mod bulk;
pub mod entities;
pub mod entity_id;
pub mod error;
pub mod history;
pub mod model;
pub mod pack;
pub mod packing;
pub mod remove;
pub mod sparse_set;
pub mod storage;
pub mod storage_id;
pub mod system;
pub mod unknown_storage;

pub use add_component::AddComponent;
pub use all_storages::AllStorages;
pub use atomic_refcell::{AtomicRefCell, ThreadId};
pub use entities::Entities;
pub use entity_id::EntityId;
pub use remove::{Removable, Remove};
pub use sparse_set::{OldComponent, SparseSet};
pub use storage::Storage;
pub use storage_id::StorageId;
pub use system::Nothing;
pub use unknown_storage::UnknownStorage;

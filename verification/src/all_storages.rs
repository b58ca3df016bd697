//! The registry of a world: its entity table and its storages, by id.

use crate::atomic_refcell::ThreadId;
use crate::entities::Entities;
use crate::entity_id::EntityId;
use crate::error;
use crate::storage::Storage;
use crate::storage_id::StorageId;
use crate::unknown_storage::UnknownStorage;
use vstd::prelude::*;

verus! {

/// The ids of `storages` ascend strictly: the list is in order and no id
/// occurs twice.
pub open spec fn ascending<T>(storages: Seq<Storage<T>>) -> bool {
    forall|i: int, j: int|
        0 <= i < j < storages.len() ==> (#[trigger] storages[i]).storage_id().below(
            (#[trigger] storages[j]).storage_id(),
        )
}

/// Whether one of `storages` is known under `id`.
pub open spec fn holds_id<T>(storages: Seq<Storage<T>>, id: StorageId) -> bool {
    exists|i: int| 0 <= i < storages.len() && (#[trigger] storages[i]).storage_id() == id
}

/// Position among `storages` of the one known under `id`.
pub open spec fn place_of<T>(storages: Seq<Storage<T>>, id: StorageId) -> int {
    choose|i: int| 0 <= i < storages.len() && (#[trigger] storages[i]).storage_id() == id
}

/// The storages by their ids.
pub open spec fn by_id<T>(storages: Seq<Storage<T>>) -> Map<StorageId, Storage<T>> {
    Map::new(|id: StorageId| holds_id(storages, id), |id: StorageId| storages[place_of(storages, id)])
}

/// In a list in order a storage is found where it stands.
pub proof fn lemma_place<T>(storages: Seq<Storage<T>>, k: int)
    requires
        ascending(storages),
        0 <= k < storages.len(),
    ensures
        holds_id(storages, storages[k].storage_id()),
        place_of(storages, storages[k].storage_id()) == k,
        by_id(storages).contains_key(storages[k].storage_id()),
        by_id(storages)[storages[k].storage_id()] == storages[k],
{
    let id = storages[k].storage_id();
    let p = place_of(storages, id);
    StorageId::lemma_total_order(id, id, id);
    if p < k {
        assert(storages[p].storage_id().below(storages[k].storage_id()));
    } else if k < p {
        assert(storages[k].storage_id().below(storages[p].storage_id()));
    }
}

/// A storage put in its place is added to the map of the list.
pub proof fn lemma_by_id_insert<T>(storages: Seq<Storage<T>>, at: int, storage: Storage<T>)
    requires
        ascending(storages),
        0 <= at <= storages.len(),
        ascending(storages.insert(at, storage)),
    ensures
        !holds_id(storages, storage.storage_id()),
        by_id(storages.insert(at, storage)) == by_id(storages).insert(storage.storage_id(), storage),
{
    let after = storages.insert(at, storage);
    let id = storage.storage_id();
    StorageId::lemma_total_order(id, id, id);
    assert(after[at] == storage);
    if holds_id(storages, id) {
        let p = place_of(storages, id);
        if p < at {
            assert(after[p] == storages[p]);
            assert(after[p].storage_id().below(after[at].storage_id()));
        } else {
            assert(after[p + 1] == storages[p]);
            assert(after[at].storage_id().below(after[p + 1].storage_id()));
        }
    }
    assert forall|x: StorageId| holds_id(after, x) <==> (holds_id(storages, x) || x == id) by {
        if holds_id(after, x) {
            let p = place_of(after, x);
            if p < at {
                assert(storages[p] == after[p]);
            } else if p > at {
                assert(storages[p - 1] == after[p]);
            }
        }
        if holds_id(storages, x) {
            let p = place_of(storages, x);
            if p < at {
                assert(after[p] == storages[p]);
            } else {
                assert(after[p + 1] == storages[p]);
            }
        }
    }
    assert forall|x: StorageId| holds_id(after, x) implies #[trigger] after[place_of(after, x)] == (
    if x == id {
        storage
    } else {
        storages[place_of(storages, x)]
    }) by {
        if x == id {
            lemma_place(after, at);
        } else {
            let p = place_of(storages, x);
            let q = if p < at { p } else { p + 1 };
            assert(after[q] == storages[p]);
            lemma_place(after, q);
        }
    }
    assert(by_id(after) =~= by_id(storages).insert(id, storage));
}

/// A storage taken out of the list leaves the map of the list.
pub proof fn lemma_by_id_remove<T>(storages: Seq<Storage<T>>, at: int)
    requires
        ascending(storages),
        0 <= at < storages.len(),
    ensures
        ascending(storages.remove(at)),
        !holds_id(storages.remove(at), storages[at].storage_id()),
        by_id(storages.remove(at)) == by_id(storages).remove(storages[at].storage_id()),
{
    let after = storages.remove(at);
    let id = storages[at].storage_id();
    StorageId::lemma_total_order(id, id, id);
    assert forall|a: int, b: int| 0 <= a < b < after.len() implies (#[trigger] after[a]).storage_id().below(
        (#[trigger] after[b]).storage_id(),
    ) by {
        let a0 = if a < at { a } else { a + 1 };
        let b0 = if b < at { b } else { b + 1 };
        assert(after[a] == storages[a0] && after[b] == storages[b0]);
        assert(storages[a0].storage_id().below(storages[b0].storage_id()));
    }
    assert forall|x: StorageId| holds_id(after, x) <==> (holds_id(storages, x) && x != id) by {
        if holds_id(after, x) {
            let p = place_of(after, x);
            let q = if p < at { p } else { p + 1 };
            assert(storages[q] == after[p]);
            if q < at {
                assert(storages[q].storage_id().below(storages[at].storage_id()));
            } else {
                assert(storages[at].storage_id().below(storages[q].storage_id()));
            }
        }
        if holds_id(storages, x) && x != id {
            let p = place_of(storages, x);
            let q = if p < at { p } else { p - 1 };
            assert(after[q] == storages[p]);
        }
    }
    assert forall|x: StorageId| holds_id(after, x) implies #[trigger] after[place_of(after, x)]
        == storages[place_of(storages, x)] by {
        let p = place_of(after, x);
        let q = if p < at { p } else { p + 1 };
        assert(storages[q] == after[p]);
        lemma_place(storages, q);
    }
    assert(by_id(after) =~= by_id(storages).remove(id));
}

/// A storage replaced by one of the same id is replaced in the map of
/// the list.
pub proof fn lemma_by_id_update<T>(storages: Seq<Storage<T>>, at: int, storage: Storage<T>)
    requires
        ascending(storages),
        0 <= at < storages.len(),
        storage.storage_id() == storages[at].storage_id(),
    ensures
        ascending(storages.update(at, storage)),
        by_id(storages.update(at, storage)) == by_id(storages).insert(storage.storage_id(), storage),
{
    let after = storages.update(at, storage);
    let id = storage.storage_id();
    assert forall|a: int, b: int| 0 <= a < b < after.len() implies (#[trigger] after[a]).storage_id().below(
        (#[trigger] after[b]).storage_id(),
    ) by {
        assert(after[a].storage_id() == storages[a].storage_id());
        assert(after[b].storage_id() == storages[b].storage_id());
        assert(storages[a].storage_id().below(storages[b].storage_id()));
    }
    assert forall|x: StorageId| holds_id(after, x) <==> (holds_id(storages, x) || x == id) by {
        if holds_id(after, x) {
            let p = place_of(after, x);
            assert(storages[p].storage_id() == x);
        }
        if holds_id(storages, x) {
            let p = place_of(storages, x);
            assert(after[p].storage_id() == x);
        }
        assert(after[at].storage_id() == id);
    }
    assert forall|x: StorageId| holds_id(after, x) implies #[trigger] after[place_of(after, x)] == (
    if x == id {
        storage
    } else {
        storages[place_of(storages, x)]
    }) by {
        let p = place_of(after, x);
        assert(storages[p].storage_id() == x);
        lemma_place(storages, p);
        lemma_place(after, at);
    }
    assert(by_id(after) =~= by_id(storages).insert(id, storage));
}

/// Lists in order with the same ids at the same places have the same ids
/// in their maps, and each id leads to the storage at its place in both.
pub proof fn lemma_by_id_same_places<T>(before: Seq<Storage<T>>, after: Seq<Storage<T>>)
    requires
        ascending(before),
        before.len() == after.len(),
        forall|k: int|
            0 <= k < before.len() ==> (#[trigger] after[k]).storage_id() == before[k].storage_id(),
    ensures
        ascending(after),
        by_id(after).dom() == by_id(before).dom(),
        forall|id: StorageId|
            holds_id(before, id) ==> place_of(after, id) == place_of(before, id) && 0 <= place_of(
                before,
                id,
            ) < before.len(),
{
    assert forall|a: int, b: int| 0 <= a < b < after.len() implies (#[trigger] after[a]).storage_id().below(
        (#[trigger] after[b]).storage_id(),
    ) by {
        assert(after[a].storage_id() == before[a].storage_id());
        assert(after[b].storage_id() == before[b].storage_id());
        assert(before[a].storage_id().below(before[b].storage_id()));
    }
    assert forall|id: StorageId| holds_id(after, id) <==> holds_id(before, id) by {
        if holds_id(after, id) {
            let p = place_of(after, id);
            assert(before[p].storage_id() == id);
        }
        if holds_id(before, id) {
            let p = place_of(before, id);
            assert(after[p].storage_id() == id);
        }
    }
    assert forall|id: StorageId| holds_id(before, id) implies place_of(after, id) == place_of(
        before,
        id,
    ) && 0 <= place_of(before, id) < before.len() by {
        let p = place_of(before, id);
        assert(after[p].storage_id() == id);
        lemma_place(after, p);
    }
    assert(by_id(after).dom() =~= by_id(before).dom());
}

/// The first refusal that `thread` meets when it asks each of the first
/// `upto` storages for exclusive access, in order.
pub open spec fn first_denied<T>(storages: Seq<Storage<T>>, thread: ThreadId, upto: int) -> Option<
    error::Borrow,
>
    decreases upto,
{
    if upto <= 0 {
        None
    } else {
        match first_denied(storages, thread, upto - 1) {
            Some(denied) => Some(denied),
            None => match storages[upto - 1].cell().exclusive_access(thread) {
                Err(denied) => Some(denied),
                Ok(_) => None,
            },
        }
    }
}

/// Without a refusal every storage grants exclusive access.
pub proof fn lemma_none_denied<T>(storages: Seq<Storage<T>>, thread: ThreadId, upto: int)
    requires
        0 <= upto <= storages.len(),
        first_denied(storages, thread, upto) is None,
    ensures
        forall|k: int| 0 <= k < upto ==> (#[trigger] storages[k]).cell().exclusive_access(thread) is Ok,
    decreases upto,
{
    if upto > 0 {
        lemma_none_denied(storages, thread, upto - 1);
    }
}

/// Where every storage grants exclusive access there is no refusal.
pub proof fn lemma_all_granted<T>(storages: Seq<Storage<T>>, thread: ThreadId, upto: int)
    requires
        0 <= upto <= storages.len(),
        forall|k: int| 0 <= k < upto ==> (#[trigger] storages[k]).cell().exclusive_access(thread) is Ok,
    ensures
        first_denied(storages, thread, upto) is None,
    decreases upto,
{
    if upto > 0 {
        lemma_all_granted(storages, thread, upto - 1);
    }
}

/// Every storage of a world, in ascending order of id, and the entity
/// table beside them.
pub struct AllStorages<T> {
    entities: Storage<T>,
    storages: Vec<Storage<T>>,
}

impl<T> View for AllStorages<T> {
    type V = Map<StorageId, Storage<T>>;

    /// The storages by their ids, the entity table not among them.
    open spec fn view(&self) -> Map<StorageId, Storage<T>> {
        by_id(self.storages())
    }
}

impl<T> AllStorages<T> {
    /// The storages, in ascending order of id.
    pub closed spec fn storages(&self) -> Seq<Storage<T>> {
        self.storages@
    }

    /// The storage of the entity table.
    pub closed spec fn entities_storage(&self) -> Storage<T> {
        self.entities
    }

    /// The entity table.
    pub open spec fn entity_table(&self) -> Entities {
        self.entities_storage().content()->Entities_0
    }

    /// Invariant of the registry.
    pub open spec fn wf(&self) -> bool {
        &&& self.entities_storage().content() is Entities
        &&& self.entities_storage().wf()
        &&& ascending(self.storages())
        &&& forall|i: int| 0 <= i < self.storages().len() ==> (#[trigger] self.storages()[i]).wf()
    }

    /// Whether a storage is registered under `id`.
    pub open spec fn has_storage(&self, id: StorageId) -> bool {
        holds_id(self.storages(), id)
    }

    /// Position of the storage registered under `id`.
    pub open spec fn position_of(&self, id: StorageId) -> int {
        place_of(self.storages(), id)
    }

    /// Where a storage with `id` belongs: the number of storages whose id
    /// is below `id`.
    pub open spec fn rank(&self, id: StorageId, upto: int) -> int
        decreases upto,
    {
        if upto <= 0 {
            0
        } else {
            self.rank(id, upto - 1) + if self.storages()[upto - 1].storage_id().below(id) {
                1int
            } else {
                0int
            }
        }
    }

    /// In a registry in order, the storages below `id` are the first ones.
    proof fn lemma_rank(&self, id: StorageId, at: int)
        requires
            ascending(self.storages()),
            0 <= at <= self.storages().len(),
            forall|k: int| 0 <= k < at ==> (#[trigger] self.storages()[k]).storage_id().below(id),
            at < self.storages().len() ==> !self.storages()[at].storage_id().below(id),
        ensures
            self.rank(id, self.storages().len() as int) == at,
    {
        self.lemma_rank_prefix(id, at, at);
        self.lemma_rank_suffix(id, at, self.storages().len() as int);
    }

    proof fn lemma_rank_prefix(&self, id: StorageId, at: int, upto: int)
        requires
            0 <= upto <= at <= self.storages().len(),
            forall|k: int| 0 <= k < at ==> (#[trigger] self.storages()[k]).storage_id().below(id),
        ensures
            self.rank(id, upto) == upto,
        decreases upto,
    {
        if upto > 0 {
            self.lemma_rank_prefix(id, at, upto - 1);
        }
    }

    proof fn lemma_rank_suffix(&self, id: StorageId, at: int, upto: int)
        requires
            ascending(self.storages()),
            0 <= at <= upto <= self.storages().len(),
            self.rank(id, at) == at,
            at < self.storages().len() ==> !self.storages()[at].storage_id().below(id),
        ensures
            self.rank(id, upto) == at,
        decreases upto,
    {
        if upto > at {
            self.lemma_rank_suffix(id, at, upto - 1);
            if upto - 1 > at {
                StorageId::lemma_total_order(
                    self.storages()[at].storage_id(),
                    self.storages()[upto - 1].storage_id(),
                    id,
                );
            }
        }
    }

    /// A registry with an empty entity table and no storage.
    pub fn new() -> (all: AllStorages<T>)
        ensures
            all.wf(),
            all.storages().len() == 0,
            all.entity_table()@.slots.len() == 0,
            all.entity_table()@.free.len() == 0,
            all.entities_storage().open_to_all(),
    {
        AllStorages { entities: Storage::new_entities(StorageId::Custom(0)), storages: Vec::new() }
    }

    /// Number of storages, the entity table not counted.
    pub fn len(&self) -> (len: usize)
        ensures
            len == self.storages().len(),
    {
        self.storages.len()
    }

    /// Looks for the storage with `id`: its position, or else the
    /// position where it belongs.
    pub fn find(&self, id: StorageId) -> (found: Result<usize, usize>)
        requires
            self.wf(),
        ensures
            found is Ok <==> self.has_storage(id),
            found matches Ok(i) ==> i < self.storages().len() && self.storages()[i as int].storage_id()
                == id && i == self.position_of(id),
            found matches Err(i) ==> i == self.rank(id, self.storages().len() as int),
            found matches Err(i) ==> {
                &&& i <= self.storages().len()
                &&& forall|k: int| 0 <= k < i ==> (#[trigger] self.storages()[k]).storage_id().below(id)
                &&& forall|k: int|
                    i <= k < self.storages().len() ==> id.below(
                        (#[trigger] self.storages()[k]).storage_id(),
                    )
            },
    {
        let mut i: usize = 0;
        while i < self.storages.len() && self.storages[i].id().precedes(&id)
            invariant
                i <= self.storages().len(),
                forall|k: int| 0 <= k < i ==> (#[trigger] self.storages()[k]).storage_id().below(id),
            decreases self.storages.len() - i,
        {
            i += 1;
        }
        proof {
            self.lemma_rank(id, i as int);
        }
        if i < self.storages.len() && self.storages[i].id() == id {
            proof {
                let p = self.position_of(id);
                if p != i {
                    StorageId::lemma_total_order(id, id, id);
                    if p < i {
                        assert(self.storages()[p].storage_id().below(self.storages()[i as int].storage_id()));
                    } else {
                        assert(self.storages()[i as int].storage_id().below(self.storages()[p].storage_id()));
                    }
                }
            }
            Ok(i)
        } else {
            proof {
                assert forall|k: int| i <= k < self.storages().len() implies id.below(
                    (#[trigger] self.storages()[k]).storage_id(),
                ) by {
                    let here = self.storages()[i as int].storage_id();
                    let there = self.storages()[k].storage_id();
                    StorageId::lemma_total_order(id, here, there);
                    if k > i {
                        assert(here.below(there));
                    }
                }
                if self.has_storage(id) {
                    let p = self.position_of(id);
                    StorageId::lemma_total_order(id, id, id);
                    if p < i {
                        assert(self.storages()[p].storage_id().below(id));
                    } else {
                        assert(id.below(self.storages()[p].storage_id()));
                    }
                }
            }
            Err(i)
        }
    }

    /// Whether a storage is registered under `id`.
    pub fn contains(&self, id: StorageId) -> (found: bool)
        requires
            self.wf(),
        ensures
            found == self.has_storage(id),
    {
        self.find(id).is_ok()
    }

    /// Puts `storage` at position `at`, where its id belongs.
    fn insert_at(&mut self, at: usize, storage: Storage<T>)
        requires
            old(self).wf(),
            storage.wf(),
            at <= old(self).storages().len(),
            forall|k: int|
                0 <= k < at ==> (#[trigger] old(self).storages()[k]).storage_id().below(
                    storage.storage_id(),
                ),
            forall|k: int|
                at <= k < old(self).storages().len() ==> storage.storage_id().below(
                    (#[trigger] old(self).storages()[k]).storage_id(),
                ),
        ensures
            final(self).wf(),
            final(self).storages() == old(self).storages().insert(at as int, storage),
            final(self).entities_storage() == old(self).entities_storage(),
            final(self)@ == old(self)@.insert(storage.storage_id(), storage),
    {
        self.storages.insert(at, storage);
        proof {
            let before = old(self).storages();
            let after = self.storages();
            assert forall|i: int, j: int| 0 <= i < j < after.len() implies (#[trigger] after[i]).storage_id().below(
                (#[trigger] after[j]).storage_id(),
            ) by {
                let i0 = if i < at { i } else { i - 1 };
                let j0 = if j < at { j } else { j - 1 };
                if i != at && j != at {
                    assert(after[i] == before[i0] && after[j] == before[j0]);
                    assert(before[i0].storage_id().below(before[j0].storage_id()));
                } else if i == at {
                    assert(after[j] == before[j0]);
                } else {
                    assert(after[i] == before[i0]);
                }
            }
            assert forall|i: int| 0 <= i < after.len() implies (#[trigger] after[i]).wf() by {
                if i < at {
                    assert(after[i] == before[i]);
                } else if i > at {
                    assert(after[i] == before[i - 1]);
                }
            }
            lemma_by_id_insert(before, at as int, storage);
        }
    }

    /// Makes sure that a storage is registered under `id`: if none is, an
    /// empty component container is, at the place of `id` in the order.
    /// Says whether the storage was made.
    pub fn register(&mut self, id: StorageId) -> (made: bool)
        requires
            old(self).wf(),
        ensures
            final(self).wf(),
            made == !old(self).has_storage(id),
            final(self).has_storage(id),
            final(self).entities_storage() == old(self).entities_storage(),
            !made ==> final(self).storages() == old(self).storages(),
            made ==> final(self)@ == old(self)@.insert(id, final(self)@[id]) && final(self)@[id].new_container(
                id,
            ),
            made ==> {
                let at = old(self).rank(id, old(self).storages().len() as int);
                &&& final(self).storages().len() == old(self).storages().len() + 1
                &&& 0 <= at <= old(self).storages().len()
                &&& final(self).storages() == old(self).storages().insert(
                    at,
                    final(self).storages()[at],
                )
                &&& final(self).storages()[at].new_container(id)
            },
    {
        match self.find(id) {
            Ok(i) => false,
            Err(at) => {
                self.insert_at(at, Storage::new(id));
                assert(self.storages()[at as int].storage_id() == id);
                assert(self@[id] == self.storages()[at as int]);
                true
            },
        }
    }

    /// Registers the unique value `component` under `id`, unless a
    /// storage is registered under `id` already: then `component` is
    /// handed back.
    pub fn register_unique(&mut self, id: StorageId, component: T) -> (refused: Option<T>)
        requires
            old(self).wf(),
        ensures
            final(self).wf(),
            refused == (if old(self).has_storage(id) {
                Some(component)
            } else {
                None
            }),
            final(self).has_storage(id),
            final(self).entities_storage() == old(self).entities_storage(),
            refused is Some ==> final(self).storages() == old(self).storages(),
            refused is None ==> final(self)@ == old(self)@.insert(id, final(self)@[id]) && final(self)@[id].content() == UnknownStorage::Unique(component) && final(self)@[id].open_to_all(),
            refused is None ==> {
                let at = old(self).rank(id, old(self).storages().len() as int);
                &&& final(self).storages().len() == old(self).storages().len() + 1
                &&& 0 <= at <= old(self).storages().len()
                &&& final(self).storages() == old(self).storages().insert(
                    at,
                    final(self).storages()[at],
                )
                &&& final(self).storages()[at].storage_id() == id
                &&& final(self).storages()[at].content() == UnknownStorage::Unique(component)
                &&& final(self).storages()[at].open_to_all()
            },
    {
        match self.find(id) {
            Ok(i) => Some(component),
            Err(at) => {
                self.insert_at(at, Storage::new_unique(id, component));
                assert(self.storages()[at as int].storage_id() == id);
                assert(self@[id] == self.storages()[at as int]);
                None
            },
        }
    }

    /// The storage registered under `id`, if any.
    pub fn storage(&self, id: StorageId) -> (storage: Option<&Storage<T>>)
        requires
            self.wf(),
        ensures
            storage is Some <==> self.has_storage(id),
            storage matches Some(found) ==> *found == self.storages()[self.position_of(id)]
                && found.storage_id() == id && found.wf() && *found == self@[id],
    {
        match self.find(id) {
            Ok(i) => Some(&self.storages[i]),
            Err(_) => None,
        }
    }

    /// Takes the storage registered under `id` out of the registry, if
    /// any, for the caller to work on and to [`AllStorages::put`] back.
    pub fn take(&mut self, id: StorageId) -> (storage: Option<Storage<T>>)
        requires
            old(self).wf(),
        ensures
            final(self).wf(),
            storage is Some <==> old(self).has_storage(id),
            !final(self).has_storage(id),
            final(self).entities_storage() == old(self).entities_storage(),
            storage is None ==> final(self).storages() == old(self).storages(),
            storage is Some ==> final(self).storages().len() == old(self).storages().len() - 1,
            storage matches Some(taken) ==> taken == old(self).storages()[old(self).position_of(id)]
                && taken.storage_id() == id && taken.wf() && final(self).storages() == old(self).storages().remove(old(self).position_of(id)),
            storage matches Some(taken) ==> taken == old(self)@[id] && final(self)@ == old(self)@.remove(
                id,
            ),
    {
        match self.find(id) {
            Ok(i) => {
                let taken = self.storages.remove(i);
                proof {
                    let before = old(self).storages();
                    let after = self.storages();
                    lemma_by_id_remove(before, i as int);
                    assert forall|a: int, b: int| 0 <= a < b < after.len() implies (
                    #[trigger] after[a]).storage_id().below((#[trigger] after[b]).storage_id()) by {
                        let a0 = if a < i { a } else { a + 1 };
                        let b0 = if b < i { b } else { b + 1 };
                        assert(after[a] == before[a0] && after[b] == before[b0]);
                        assert(before[a0].storage_id().below(before[b0].storage_id()));
                    }
                    assert forall|a: int| 0 <= a < after.len() implies (#[trigger] after[a]).wf() by {
                        let a0 = if a < i { a } else { a + 1 };
                        assert(after[a] == before[a0]);
                    }
                    if self.has_storage(id) {
                        let p = self.position_of(id);
                        let was_at = if p < i { p } else { p + 1 };
                        assert(after[p] == before[was_at]);
                        StorageId::lemma_total_order(id, id, id);
                        if was_at < i {
                            assert(before[was_at].storage_id().below(before[i as int].storage_id()));
                        } else {
                            assert(before[i as int].storage_id().below(before[was_at].storage_id()));
                        }
                    }
                }
                Some(taken)
            },
            Err(_) => None,
        }
    }

    /// Puts `storage` into the registry at the place of its id, unless a
    /// storage is registered under that id: then `storage` is handed back.
    pub fn put(&mut self, storage: Storage<T>) -> (refused: Option<Storage<T>>)
        requires
            old(self).wf(),
            storage.wf(),
        ensures
            final(self).wf(),
            refused == (if old(self).has_storage(storage.storage_id()) {
                Some(storage)
            } else {
                None
            }),
            final(self).has_storage(storage.storage_id()),
            final(self).entities_storage() == old(self).entities_storage(),
            refused is Some ==> final(self).storages() == old(self).storages(),
            refused is None ==> final(self).storages().len() == old(self).storages().len() + 1,
            refused is None ==> final(self)@ == old(self)@.insert(storage.storage_id(), storage),
            refused is None ==> final(self).storages() == old(self).storages().insert(
                old(self).rank(storage.storage_id(), old(self).storages().len() as int),
                storage,
            ),
    {
        match self.find(storage.id()) {
            Ok(_) => Some(storage),
            Err(at) => {
                let ghost id = storage.storage_id();
                self.insert_at(at, storage);
                assert(self.storages()[at as int].storage_id() == id);
                None
            },
        }
    }

    /// Immutably borrows the entity table.
    pub fn entities(&self, thread: ThreadId) -> (entities: Result<&Entities, error::Borrow>)
        requires
            self.wf(),
        ensures
            entities == (match self.entities_storage().cell().shared_access(thread) {
                Err(denied) => Err::<&Entities, error::Borrow>(denied),
                Ok(_) => Ok(&self.entity_table()),
            }),
            entities matches Ok(table) ==> table.wf(),
    {
        self.entities.entities(thread)
    }

    /// Mutably borrows the entity table.
    pub fn entities_mut(&mut self, thread: ThreadId) -> (entities: Result<
        &mut Entities,
        error::Borrow,
    >)
        requires
            old(self).wf(),
        ensures
            old(self).entities_storage().cell().exclusive_access(thread) matches Err(denied)
                ==> entities == Err::<&mut Entities, error::Borrow>(denied),
            old(self).entities_storage().cell().exclusive_access(thread) is Ok ==> entities is Ok,
            final(self).storages() == old(self).storages(),
            final(self)@ == old(self)@,
            final(self).entities_storage().same_cell(&old(self).entities_storage()),
            entities is Err ==> final(self).entities_storage().content() == old(self).entities_storage().content(),
            entities matches Ok(table) ==> *table == old(self).entity_table() && table.wf()
                && final(self).entities_storage().content() == UnknownStorage::<T>::Entities(
                *final(table),
            ),
    {
        self.entities.entities_mut(thread)
    }

    /// The storage registered under `id`, mutably, if any.
    pub fn storage_mut(&mut self, id: StorageId) -> (storage: Option<&mut Storage<T>>)
        requires
            old(self).wf(),
        ensures
            storage is Some <==> old(self).has_storage(id),
            final(self).entities_storage() == old(self).entities_storage(),
            storage is None ==> final(self).storages() == old(self).storages(),
            storage matches Some(found) ==> *found == old(self).storages()[old(self).position_of(id)]
                && found.storage_id() == id && found.wf() && final(self).storages() == old(self).storages().update(old(self).position_of(id), *final(found)),
            storage matches Some(found) ==> *found == old(self)@[id] && (final(found).storage_id()
                == id ==> final(self)@ == old(self)@.insert(id, *final(found))) && (final(found).storage_id() == id && final(found).wf() ==> final(self).wf()),
    {
        match self.find(id) {
            Ok(i) => {
                proof {
                    let before = self.storages();
                    assert forall|now: Storage<T>| now.storage_id() == id implies by_id(
                        #[trigger] before.update(i as int, now),
                    ) == self@.insert(id, now) && ascending(before.update(i as int, now)) by {
                        lemma_by_id_update(before, i as int, now);
                    }
                    assert forall|now: Storage<T>| now.storage_id() == id && now.wf() implies (forall|
                        k: int,
                    |
                        0 <= k < before.len() ==> (#[trigger] before.update(i as int, now)[k]).wf()) by {
                        assert forall|k: int| 0 <= k < before.len() implies (#[trigger] before.update(
                            i as int,
                            now,
                        )[k]).wf() by {
                            if k != i {
                                assert(before.update(i as int, now)[k] == before[k]);
                            }
                        }
                    }
                    lemma_place(before, i as int);
                }
                Some(&mut self.storages[i])
            },
            Err(_) => None,
        }
    }

    /// The first refusal that `thread` meets when it asks the entity
    /// table, then each storage in order, for exclusive access.
    pub open spec fn denied(&self, thread: ThreadId) -> Option<error::Borrow> {
        match self.entities_storage().cell().exclusive_access(thread) {
            Err(denied) => Some(denied),
            Ok(_) => first_denied(self.storages(), thread, self.storages().len() as int),
        }
    }

    /// Where the entity table and every registered storage grant `thread`
    /// exclusive access, `thread` meets no refusal.
    pub proof fn lemma_granted_by_id(&self, thread: ThreadId)
        requires
            self.wf(),
            self.entities_storage().cell().exclusive_access(thread) is Ok,
            forall|id: StorageId|
                self@.contains_key(id) ==> (#[trigger] self@[id]).cell().exclusive_access(thread) is Ok,
        ensures
            self.denied(thread) is None,
    {
        assert forall|k: int| 0 <= k < self.storages().len() implies (
        #[trigger] self.storages()[k]).cell().exclusive_access(thread) is Ok by {
            lemma_place(self.storages(), k);
            assert(self@[self.storages()[k].storage_id()].cell().exclusive_access(thread) is Ok);
        }
        lemma_all_granted(self.storages(), thread, self.storages().len() as int);
    }

    /// Asks the entity table, then each storage in order, whether
    /// `thread` may borrow it exclusively.
    pub fn check_exclusive(&self, thread: ThreadId) -> (granted: Result<(), error::Borrow>)
        requires
            self.wf(),
        ensures
            granted == (match self.denied(thread) {
                Some(denied) => Err::<(), error::Borrow>(denied),
                None => Ok(()),
            }),
    {
        match self.entities.cell_check_exclusive(thread) {
            Err(denied) => {
                return Err(denied);
            },
            Ok(_) => {},
        }
        let mut i: usize = 0;
        while i < self.storages.len()
            invariant
                i <= self.storages().len(),
                self.entities_storage().cell().exclusive_access(thread) is Ok,
                first_denied(self.storages(), thread, i as int) is None,
            decreases self.storages.len() - i,
        {
            match self.storages[i].cell_check_exclusive(thread) {
                Err(denied) => {
                    proof {
                        assert(first_denied(self.storages(), thread, i as int + 1) == Some(denied));
                        self.lemma_denied_stays(thread, i as int + 1);
                    }
                    return Err(denied);
                },
                Ok(_) => {},
            }
            i += 1;
        }
        Ok(())
    }

    /// A refusal met among the first storages is the first refusal of all.
    proof fn lemma_denied_stays(&self, thread: ThreadId, upto: int)
        requires
            0 <= upto <= self.storages().len(),
            first_denied(self.storages(), thread, upto) is Some,
        ensures
            first_denied(self.storages(), thread, self.storages().len() as int) == first_denied(
                self.storages(),
                thread,
                upto,
            ),
        decreases self.storages().len() - upto,
    {
        if upto < self.storages().len() {
            self.lemma_denied_stays(thread, upto + 1);
        }
    }

    /// Whether `now` holds the storages of `self`, each without its
    /// component of `entity` and otherwise as it was.
    pub open spec fn stripped(&self, now: &AllStorages<T>, entity: EntityId) -> bool {
        &&& now.storages().len() == self.storages().len()
        &&& forall|i: int|
            0 <= i < self.storages().len() ==> {
                &&& (#[trigger] now.storages()[i]).same_cell(&self.storages()[i])
                &&& self.storages()[i].content().deleted(now.storages()[i].content(), entity)
            }
    }

    /// Whether `now` holds the storages of `self`, each cleared and
    /// otherwise as it was.
    pub open spec fn swept(&self, now: &AllStorages<T>) -> bool {
        &&& now.storages().len() == self.storages().len()
        &&& forall|i: int|
            0 <= i < self.storages().len() ==> {
                &&& (#[trigger] now.storages()[i]).same_cell(&self.storages()[i])
                &&& self.storages()[i].content().cleared(now.storages()[i].content())
            }
    }

    /// What [`AllStorages::stripped`] says of each place it says of each id.
    pub proof fn lemma_stripped_by_id(&self, now: &AllStorages<T>, entity: EntityId)
        requires
            self.wf(),
            self.stripped(now, entity),
        ensures
            now@.dom() == self@.dom(),
            forall|id: StorageId|
                self@.contains_key(id) ==> {
                    &&& (#[trigger] now@[id]).same_cell(&self@[id])
                    &&& self@[id].content().deleted(now@[id].content(), entity)
                },
    {
        assert forall|k: int| 0 <= k < self.storages().len() implies (
        #[trigger] now.storages()[k]).storage_id() == self.storages()[k].storage_id() by {
            assert(now.storages()[k].same_cell(&self.storages()[k]));
        }
        lemma_by_id_same_places(self.storages(), now.storages());
        assert forall|id: StorageId| self@.contains_key(id) implies {
            &&& (#[trigger] now@[id]).same_cell(&self@[id])
            &&& self@[id].content().deleted(now@[id].content(), entity)
        } by {
            let p = place_of(self.storages(), id);
            assert(now.storages()[p].same_cell(&self.storages()[p]));
        }
    }

    /// What [`AllStorages::swept`] says of each place it says of each id.
    pub proof fn lemma_swept_by_id(&self, now: &AllStorages<T>)
        requires
            self.wf(),
            self.swept(now),
        ensures
            now@.dom() == self@.dom(),
            forall|id: StorageId|
                self@.contains_key(id) ==> {
                    &&& (#[trigger] now@[id]).same_cell(&self@[id])
                    &&& self@[id].content().cleared(now@[id].content())
                },
    {
        assert forall|k: int| 0 <= k < self.storages().len() implies (
        #[trigger] now.storages()[k]).storage_id() == self.storages()[k].storage_id() by {
            assert(now.storages()[k].same_cell(&self.storages()[k]));
        }
        lemma_by_id_same_places(self.storages(), now.storages());
        assert forall|id: StorageId| self@.contains_key(id) implies {
            &&& (#[trigger] now@[id]).same_cell(&self@[id])
            &&& self@[id].content().cleared(now@[id].content())
        } by {
            let p = place_of(self.storages(), id);
            assert(now.storages()[p].same_cell(&self.storages()[p]));
        }
    }

    /// Deletes the entity `entity`: kills it and takes its component out
    /// of every storage, then moves it out of the packed prefix of every
    /// storage that a storage named for repair. Says whether the entity
    /// was alive; if it was not, nothing is written.
    ///
    /// Nothing is written either unless the entity table and every
    /// storage grant `thread` exclusive access.
    pub fn delete(&mut self, entity: EntityId, thread: ThreadId) -> (deleted: Result<
        bool,
        error::Borrow,
    >)
        requires
            old(self).wf(),
        ensures
            final(self).wf(),
            deleted == (match old(self).denied(thread) {
                Some(denied) => Err::<bool, error::Borrow>(denied),
                None => Ok(old(self).entity_table()@.alive(entity)),
            }),
            final(self).entities_storage().same_cell(&old(self).entities_storage()),
            deleted == Ok::<bool, error::Borrow>(true) ==> {
                &&& final(self).entity_table()@ == old(self).entity_table()@.kill(entity)
                &&& final(self)@.dom() == old(self)@.dom()
                &&& forall|id: StorageId|
                    old(self)@.contains_key(id) ==> {
                        &&& (#[trigger] final(self)@[id]).same_cell(&old(self)@[id])
                        &&& old(self)@[id].content().deleted(final(self)@[id].content(), entity)
                    }
                &&& old(self).stripped(final(self), entity)
                &&& forall|i: int|
                    0 <= i < final(self).storages().len() ==> !(#[trigger] final(self).storages()[i]).content().has(entity)
            },
            deleted != Ok::<bool, error::Borrow>(true) ==> {
                &&& final(self).storages() == old(self).storages()
                &&& final(self).entities_storage().content() == old(self).entities_storage().content()
            },
    {
        match self.check_exclusive(thread) {
            Err(denied) => {
                return Err(denied);
            },
            Ok(_) => {},
        }
        proof {
            lemma_none_denied(self.storages(), thread, self.storages().len() as int);
        }
        let killed = match self.entities.entities_mut(thread) {
            Ok(table) => table.kill(entity),
            Err(_) => false,
        };
        if !killed {
            return Ok(false);
        }
        let mut storage_to_unpack: Vec<StorageId> = Vec::new();
        let n = self.storages.len();
        let mut i: usize = 0;
        while i < n
            invariant
                i <= n,
                n == self.storages().len(),
                n == old(self).storages().len(),
                self.entities_storage().wf(),
                self.entities_storage().content() is Entities,
                self.entities_storage().same_cell(&old(self).entities_storage()),
                self.entity_table()@ == old(self).entity_table()@.kill(entity),
                forall|k: int|
                    0 <= k < n ==> (#[trigger] self.storages()[k]).same_cell(
                        &old(self).storages()[k],
                    ) && self.storages()[k].wf(),
                forall|k: int|
                    0 <= k < n ==> (#[trigger] old(self).storages()[k]).cell().exclusive_access(
                        thread,
                    ) is Ok,
                forall|k: int|
                    0 <= k < i ==> (#[trigger] old(self).storages()[k]).content().deleted(
                        self.storages()[k].content(),
                        entity,
                    ) && !self.storages()[k].content().has(entity),
                forall|k: int| i <= k < n ==> (#[trigger] self.storages()[k]) == old(self).storages()[k],
            decreases n - i,
        {
            let ghost before = self.storages();
            let done = self.storages[i].delete(entity, &mut storage_to_unpack, thread);
            proof {
                assert(before[i as int] == old(self).storages()[i as int]);
                assert forall|k: int| 0 <= k < n implies (#[trigger] self.storages()[k]).same_cell(
                    &old(self).storages()[k],
                ) && self.storages()[k].wf() by {
                    if k != i {
                        assert(self.storages()[k] == before[k]);
                    }
                }
                assert forall|k: int| 0 <= k < i + 1 implies (#[trigger] old(self).storages()[k]).content().deleted(self.storages()[k].content(), entity)
                    && !self.storages()[k].content().has(entity) by {
                    if k != i {
                        assert(self.storages()[k] == before[k]);
                    }
                }
                assert forall|k: int| i + 1 <= k < n implies (#[trigger] self.storages()[k]) == old(self).storages()[k] by {
                    assert(self.storages()[k] == before[k]);
                }
            }
            i += 1;
        }
        proof {
            assert forall|a: int, b: int| 0 <= a < b < n implies (#[trigger] self.storages()[a]).storage_id().below(
                (#[trigger] self.storages()[b]).storage_id(),
            ) by {
                assert(self.storages()[a].same_cell(&old(self).storages()[a]));
                assert(self.storages()[b].same_cell(&old(self).storages()[b]));
                assert(old(self).storages()[a].storage_id().below(old(self).storages()[b].storage_id()));
            }
        }
        let mut j: usize = 0;
        while j < storage_to_unpack.len()
            invariant
                j <= storage_to_unpack.len(),
                self.wf(),
                n == self.storages().len(),
                n == old(self).storages().len(),
                self.entities_storage().same_cell(&old(self).entities_storage()),
                self.entity_table()@ == old(self).entity_table()@.kill(entity),
                forall|k: int|
                    0 <= k < n ==> (#[trigger] self.storages()[k]).same_cell(
                        &old(self).storages()[k],
                    ),
                forall|k: int|
                    0 <= k < n ==> (#[trigger] old(self).storages()[k]).cell().exclusive_access(
                        thread,
                    ) is Ok,
                forall|k: int|
                    0 <= k < n ==> (#[trigger] old(self).storages()[k]).content().deleted(
                        self.storages()[k].content(),
                        entity,
                    ) && !self.storages()[k].content().has(entity),
            decreases storage_to_unpack.len() - j,
        {
            match self.find(storage_to_unpack[j]) {
                Ok(at) => {
                    let ghost before = self.storages();
                    let done = self.storages[at].unpack(entity, thread);
                    proof {
                        assert(before[at as int].same_cell(&old(self).storages()[at as int]));
                        let was = before[at as int].content();
                        let now = self.storages()[at as int].content();
                        assert(was.unpacked(now, entity));
                        assert forall|k: int| 0 <= k < n implies (#[trigger] self.storages()[k]).same_cell(
                            &old(self).storages()[k],
                        ) && self.storages()[k].wf() by {
                            if k != at {
                                assert(self.storages()[k] == before[k]);
                            } else {
                                assert(before[k].same_cell(&old(self).storages()[k]));
                            }
                        }
                        assert forall|k: int| 0 <= k < n implies (#[trigger] old(self).storages()[k]).content().deleted(self.storages()[k].content(), entity)
                            && !self.storages()[k].content().has(entity) by {
                            if k != at {
                                assert(self.storages()[k] == before[k]);
                            } else {
                                assert(old(self).storages()[k].content().deleted(
                                    before[k].content(),
                                    entity,
                                ));
                            }
                        }
                        assert forall|a: int, b: int| 0 <= a < b < n implies (
                        #[trigger] self.storages()[a]).storage_id().below(
                            (#[trigger] self.storages()[b]).storage_id(),
                        ) by {
                            assert(self.storages()[a].same_cell(&old(self).storages()[a]));
                            assert(self.storages()[b].same_cell(&old(self).storages()[b]));
                            assert(old(self).storages()[a].storage_id().below(
                                old(self).storages()[b].storage_id(),
                            ));
                        }
                    }
                },
                Err(_) => {},
            }
            j += 1;
        }
        proof {
            old(self).lemma_stripped_by_id(self, entity);
        }
        Ok(true)
    }

    /// Deletes every entity and every component: kills what lives in the
    /// entity table and clears each storage. Unique values stay.
    ///
    /// Nothing is written unless the entity table and every storage grant
    /// `thread` exclusive access.
    pub fn clear(&mut self, thread: ThreadId) -> (cleared: Result<(), error::Borrow>)
        requires
            old(self).wf(),
        ensures
            final(self).wf(),
            cleared == (match old(self).denied(thread) {
                Some(denied) => Err::<(), error::Borrow>(denied),
                None => Ok(()),
            }),
            final(self).entities_storage().same_cell(&old(self).entities_storage()),
            cleared is Err ==> {
                &&& final(self).storages() == old(self).storages()
                &&& final(self).entities_storage().content() == old(self).entities_storage().content()
            },
            cleared is Ok ==> {
                &&& final(self).entity_table()@ == old(self).entity_table()@.kill_all(
                    old(self).entity_table()@.slots.len() as int,
                )
                &&& final(self)@.dom() == old(self)@.dom()
                &&& forall|id: StorageId|
                    old(self)@.contains_key(id) ==> {
                        &&& (#[trigger] final(self)@[id]).same_cell(&old(self)@[id])
                        &&& old(self)@[id].content().cleared(final(self)@[id].content())
                    }
                &&& old(self).swept(final(self))
            },
    {
        match self.check_exclusive(thread) {
            Err(denied) => {
                return Err(denied);
            },
            Ok(_) => {},
        }
        proof {
            lemma_none_denied(self.storages(), thread, self.storages().len() as int);
        }
        let done = self.entities.clear(thread);
        let n = self.storages.len();
        let mut i: usize = 0;
        while i < n
            invariant
                i <= n,
                n == self.storages().len(),
                n == old(self).storages().len(),
                self.entities_storage().wf(),
                self.entities_storage().content() is Entities,
                self.entities_storage().same_cell(&old(self).entities_storage()),
                self.entity_table()@ == old(self).entity_table()@.kill_all(
                    old(self).entity_table()@.slots.len() as int,
                ),
                forall|k: int|
                    0 <= k < n ==> (#[trigger] self.storages()[k]).same_cell(
                        &old(self).storages()[k],
                    ) && self.storages()[k].wf(),
                forall|k: int|
                    0 <= k < n ==> (#[trigger] old(self).storages()[k]).cell().exclusive_access(
                        thread,
                    ) is Ok,
                forall|k: int|
                    0 <= k < i ==> (#[trigger] old(self).storages()[k]).content().cleared(
                        self.storages()[k].content(),
                    ),
                forall|k: int| i <= k < n ==> (#[trigger] self.storages()[k]) == old(self).storages()[k],
            decreases n - i,
        {
            let ghost before = self.storages();
            let done = self.storages[i].clear(thread);
            proof {
                assert(before[i as int] == old(self).storages()[i as int]);
                assert forall|k: int| 0 <= k < n implies (#[trigger] self.storages()[k]).same_cell(
                    &old(self).storages()[k],
                ) && self.storages()[k].wf() by {
                    if k != i {
                        assert(self.storages()[k] == before[k]);
                    }
                }
                assert forall|k: int| 0 <= k < i + 1 implies (#[trigger] old(self).storages()[k]).content().cleared(self.storages()[k].content()) by {
                    if k != i {
                        assert(self.storages()[k] == before[k]);
                    }
                }
                assert forall|k: int| i + 1 <= k < n implies (#[trigger] self.storages()[k]) == old(self).storages()[k] by {
                    assert(self.storages()[k] == before[k]);
                }
            }
            i += 1;
        }
        proof {
            assert forall|a: int, b: int| 0 <= a < b < n implies (#[trigger] self.storages()[a]).storage_id().below(
                (#[trigger] self.storages()[b]).storage_id(),
            ) by {
                assert(self.storages()[a].same_cell(&old(self).storages()[a]));
                assert(self.storages()[b].same_cell(&old(self).storages()[b]));
                assert(old(self).storages()[a].storage_id().below(old(self).storages()[b].storage_id()));
            }
            old(self).lemma_swept_by_id(self);
        }
        Ok(())
    }
}

} // verus!

//! Pack metadata: which storages are packed together and how far.

use crate::entity_id::EntityId;
use crate::storage_id::StorageId;
use vstd::prelude::*;

verus! {

/// Every id of `types` occurs in `components` or in `additionals`.
pub open spec fn covered(
    types: Seq<StorageId>,
    components: Seq<StorageId>,
    additionals: Seq<StorageId>,
) -> bool {
    forall|i: int|
        0 <= i < types.len() ==> components.contains(#[trigger] types[i]) || additionals.contains(
            types[i],
        )
}

/// No id comes strictly after a later one.
pub open spec fn sorted(ids: Seq<StorageId>) -> bool {
    forall|i: int, j: int| 0 <= i < j < ids.len() ==> !(#[trigger] ids[j]).below(#[trigger] ids[i])
}

/// Whether `id` occurs in `ids`.
pub fn contains_id(ids: &[StorageId], id: StorageId) -> (found: bool)
    ensures
        found == ids@.contains(id),
{
    let mut i: usize = 0;
    while i < ids.len()
        invariant
            i <= ids.len(),
            forall|k: int| 0 <= k < i ==> ids@[k] != id,
        decreases ids.len() - i,
    {
        if ids[i] == id {
            return true;
        }
        i += 1;
    }
    false
}

/// Whether every id of `types` occurs in `components` or `additionals`.
pub fn all_covered(types: &[StorageId], components: &[StorageId], additionals: &[StorageId]) -> (all:
    bool)
    ensures
        all == covered(types@, components@, additionals@),
{
    let mut i: usize = 0;
    while i < types.len()
        invariant
            i <= types.len(),
            forall|k: int|
                0 <= k < i ==> components@.contains(#[trigger] types@[k]) || additionals@.contains(
                    types@[k],
                ),
        decreases types.len() - i,
    {
        if !contains_id(components, types[i]) && !contains_id(additionals, types[i]) {
            return false;
        }
        i += 1;
    }
    true
}

/// Appends the ids of `more` to `ids`, in order.
pub fn append_ids(ids: &mut Vec<StorageId>, more: &[StorageId])
    ensures
        final(ids)@ == old(ids)@ + more@,
{
    let mut i: usize = 0;
    while i < more.len()
        invariant
            i <= more.len(),
            ids@ == old(ids)@ + more@.subrange(0, i as int),
        decreases more.len() - i,
    {
        ids.push(more[i]);
        i += 1;
        proof {
            assert(more@.subrange(0, i as int) =~= more@.subrange(0, i - 1).push(more@[i - 1]));
            assert(ids@ =~= old(ids)@ + more@.subrange(0, i as int));
        }
    }
    proof {
        assert(more@.subrange(0, more@.len() as int) =~= more@);
    }
}

/// The ids of `ids` in ascending order.
pub fn sort_ids(ids: &[StorageId]) -> (out: Vec<StorageId>)
    ensures
        sorted(out@),
        out@.to_multiset() == ids@.to_multiset(),
        out@.len() == ids@.len(),
        forall|id: StorageId| out@.contains(id) <==> ids@.contains(id),
{
    let mut out: Vec<StorageId> = Vec::new();
    let mut i: usize = 0;
    assert(ids@.subrange(0, 0) =~= Seq::<StorageId>::empty());
    while i < ids.len()
        invariant
            i <= ids.len(),
            sorted(out@),
            out@.len() == i,
            out@.to_multiset() == ids@.subrange(0, i as int).to_multiset(),
        decreases ids.len() - i,
    {
        let id = ids[i];
        let mut p: usize = 0;
        while p < out.len() && !id.precedes(&out[p])
            invariant
                p <= out.len(),
                forall|k: int| 0 <= k < p ==> !id.below(#[trigger] out@[k]),
            decreases out.len() - p,
        {
            p += 1;
        }
        let ghost before = out@;
        out.insert(p, id);
        proof {
            assert(ids@.subrange(0, i + 1) =~= ids@.subrange(0, i as int).push(id));
            vstd::seq_lib::to_multiset_build(ids@.subrange(0, i as int), id);
            vstd::seq_lib::to_multiset_insert(before, p as int, id);
            assert(out@ == before.insert(p as int, id));
            assert forall|a: int, b: int| 0 <= a < b < out@.len() implies !(#[trigger] out@[b]).below(
                #[trigger] out@[a],
            ) by {
                let x = if a < p { before[a] } else if a == p { id } else { before[a - 1] };
                let y = if b < p { before[b] } else if b == p { id } else { before[b - 1] };
                assert(out@[a] == x && out@[b] == y);
                if b == p {
                } else if a == p {
                    StorageId::lemma_total_order(id, before[p as int], before[b - 1]);
                    if b - 1 > p {
                        assert(!before[b - 1].below(before[p as int]));
                    }
                } else {
                }
            }
        }
        i += 1;
    }
    proof {
        assert(ids@.subrange(0, ids@.len() as int) =~= ids@);
        ids@.to_multiset_ensures();
        out@.to_multiset_ensures();
        assert forall|id: StorageId| out@.contains(id) <==> ids@.contains(id) by {
            assert(out@.contains(id) <==> out@.to_multiset().count(id) > 0);
            assert(ids@.contains(id) <==> ids@.to_multiset().count(id) > 0);
        }
    }
    out
}

/// Storages whose common entities lie at the front of each dense array,
/// in the same order in all of them.
#[derive(Debug)]
pub struct TightPack {
    /// The storages packed together, this one included, in ascending order.
    pub types: Vec<StorageId>,
    /// How many entities at the front of the dense array are packed.
    pub len: usize,
}

impl TightPack {
    /// A pack over `types` with nothing packed yet.
    pub fn new(types: Vec<StorageId>) -> (pack: TightPack)
        ensures
            pack.types == types,
            pack.len == 0,
    {
        TightPack { types, len: 0 }
    }

    /// An entity found in the storages `real_types` belongs in the packed
    /// prefix when every storage of the pack is among them.
    pub open spec fn packable(&self, real_types: Seq<StorageId>) -> bool {
        covered(self.types@, real_types, Seq::empty())
    }

    /// The storages to repack for an entity found in `real_types`, or
    /// `Err` when the entity misses one of the pack's storages.
    pub fn is_packable(&self, real_types: &[StorageId]) -> (types: Result<&[StorageId], ()>)
        ensures
            types is Ok <==> self.packable(real_types@),
            types matches Ok(t) ==> t@ == self.types@,
    {
        let none: Vec<StorageId> = Vec::new();
        if all_covered(self.types.as_slice(), real_types, none.as_slice()) {
            Ok(self.types.as_slice())
        } else {
            Err(())
        }
    }

    /// Whether the caller passed every storage of the pack, as a target
    /// (`components`) or beside the targets (`additionals`).
    pub fn has_all_storages(&self, components: &[StorageId], additionals: &[StorageId]) -> (all:
        bool)
        ensures
            all == covered(self.types@, components@, additionals@),
    {
        all_covered(self.types.as_slice(), components, additionals)
    }
}

/// Like a tight pack, but some storages only have to hold the entity:
/// their dense arrays keep an order of their own.
#[derive(Debug)]
pub struct LoosePack {
    /// The storages whose packed prefixes mirror each other, in ascending order.
    pub tight_types: Vec<StorageId>,
    /// The storages that must hold an entity for it to be packed.
    pub loose_types: Vec<StorageId>,
    /// How many entities at the front of the dense array are packed.
    pub len: usize,
}

impl LoosePack {
    /// A pack over the two lists with nothing packed yet.
    pub fn new(tight_types: Vec<StorageId>, loose_types: Vec<StorageId>) -> (pack: LoosePack)
        ensures
            pack.tight_types == tight_types,
            pack.loose_types == loose_types,
            pack.len == 0,
    {
        LoosePack { tight_types, loose_types, len: 0 }
    }

    /// An entity found in the storages `real_types` belongs in the packed
    /// prefix when every tight and every loose storage is among them.
    pub open spec fn packable(&self, real_types: Seq<StorageId>) -> bool {
        &&& covered(self.tight_types@, real_types, Seq::empty())
        &&& covered(self.loose_types@, real_types, Seq::empty())
    }

    /// The storages to repack for an entity found in `real_types`, or
    /// `Err` when the entity misses one of the pack's storages.
    pub fn is_packable(&self, real_types: &[StorageId]) -> (types: Result<&[StorageId], ()>)
        ensures
            types is Ok <==> self.packable(real_types@),
            types matches Ok(t) ==> t@ == self.tight_types@,
    {
        let none: Vec<StorageId> = Vec::new();
        if all_covered(self.tight_types.as_slice(), real_types, none.as_slice()) && all_covered(
            self.loose_types.as_slice(),
            real_types,
            none.as_slice(),
        ) {
            Ok(self.tight_types.as_slice())
        } else {
            Err(())
        }
    }

    /// Whether the caller passed every tight and loose storage of the pack.
    pub fn has_all_storages(&self, components: &[StorageId], additionals: &[StorageId]) -> (all:
        bool)
        ensures
            all == (covered(self.tight_types@, components@, additionals@) && covered(
                self.loose_types@,
                components@,
                additionals@,
            )),
    {
        all_covered(self.tight_types.as_slice(), components, additionals) && all_covered(
            self.loose_types.as_slice(),
            components,
            additionals,
        )
    }
}

/// Change log of an update-packed storage.
///
/// The dense array is split in three regions: `[0, inserted_end)` holds
/// what was inserted since the last clear, `[inserted_end, modified_end)`
/// what was modified, the rest is unchanged.
#[derive(Debug)]
pub struct UpdatePack<T> {
    /// End of the inserted region.
    pub inserted_end: usize,
    /// End of the modified region.
    pub modified_end: usize,
    /// Components removed since the log was last drained.
    pub removed: Vec<(EntityId, T)>,
}

impl<T> UpdatePack<T> {
    /// An empty log.
    pub fn new() -> (pack: UpdatePack<T>)
        ensures
            pack.inserted_end == 0,
            pack.modified_end == 0,
            pack.removed@ == Seq::<(EntityId, T)>::empty(),
    {
        UpdatePack { inserted_end: 0, modified_end: 0, removed: Vec::new() }
    }
}

/// How a storage is packed.
#[derive(Debug)]
pub enum Pack<T> {
    Tight(TightPack),
    Loose(LoosePack),
    Update(UpdatePack<T>),
    NoPack,
}

/// Pack of a storage and the storages that watch its additions and removals.
#[derive(Debug)]
pub struct PackInfo<T> {
    pub pack: Pack<T>,
    /// Storages to tell of this storage's additions and removals, though
    /// not packed with it.
    pub observer_types: Vec<StorageId>,
}

/// The four ways a storage can be packed.
#[derive(Clone, Copy, Debug, PartialEq, Eq, Structural)]
pub enum PackKind {
    Tight,
    Loose,
    Update,
    NoPack,
}

/// Pack metadata as plain values.
pub struct PackView<T> {
    pub kind: PackKind,
    /// Storages whose packed prefixes mirror each other (tight and loose packs).
    pub types: Seq<StorageId>,
    /// Storages that must hold an entity for it to be packed (loose packs).
    pub loose_types: Seq<StorageId>,
    pub observer_types: Seq<StorageId>,
    /// Packed length, or end of the inserted region.
    pub lo: int,
    /// Packed length, or end of the modified region.
    pub hi: int,
    /// Removed components not yet drained (update packs).
    pub removed: Seq<(EntityId, T)>,
}

impl<T> View for PackInfo<T> {
    type V = PackView<T>;

    open spec fn view(&self) -> PackView<T> {
        match self.pack {
            Pack::Tight(pack) => PackView {
                kind: PackKind::Tight,
                types: pack.types@,
                loose_types: Seq::empty(),
                observer_types: self.observer_types@,
                lo: pack.len as int,
                hi: pack.len as int,
                removed: Seq::empty(),
            },
            Pack::Loose(pack) => PackView {
                kind: PackKind::Loose,
                types: pack.tight_types@,
                loose_types: pack.loose_types@,
                observer_types: self.observer_types@,
                lo: pack.len as int,
                hi: pack.len as int,
                removed: Seq::empty(),
            },
            Pack::Update(pack) => PackView {
                kind: PackKind::Update,
                types: Seq::empty(),
                loose_types: Seq::empty(),
                observer_types: self.observer_types@,
                lo: pack.inserted_end as int,
                hi: pack.modified_end as int,
                removed: pack.removed@,
            },
            Pack::NoPack => PackView {
                kind: PackKind::NoPack,
                types: Seq::empty(),
                loose_types: Seq::empty(),
                observer_types: self.observer_types@,
                lo: 0,
                hi: 0,
                removed: Seq::empty(),
            },
        }
    }
}

/// What pack metadata says of other storages: the part that bulk
/// operations consult, the same for every component type.
pub struct PackShape {
    pub kind: PackKind,
    pub types: Seq<StorageId>,
    pub loose_types: Seq<StorageId>,
    pub observer_types: Seq<StorageId>,
}

impl PackShape {
    /// Whether the metadata belongs to a tight or a loose pack.
    pub open spec fn is_grouped(self) -> bool {
        self.kind == PackKind::Tight || self.kind == PackKind::Loose
    }

    /// Every storage that the metadata names occurs in `components` or in
    /// `additionals`.
    pub open spec fn all_storages_in(
        self,
        components: Seq<StorageId>,
        additionals: Seq<StorageId>,
    ) -> bool {
        &&& covered(self.observer_types, components, additionals)
        &&& covered(self.types, components, additionals)
        &&& covered(self.loose_types, components, additionals)
    }

    /// An entity found in the storages `real_types` belongs in the packed
    /// prefix of a tight or loose pack.
    pub open spec fn packable(self, real_types: Seq<StorageId>) -> bool {
        &&& self.is_grouped()
        &&& covered(self.types, real_types, Seq::empty())
        &&& covered(self.loose_types, real_types, Seq::empty())
    }

    /// The storages to repair when an entity leaves: those whose prefixes
    /// mirror this one's, then the observers.
    pub open spec fn siblings(self) -> Seq<StorageId> {
        self.types + self.observer_types
    }
}

/// The two ids in ascending order.
pub open spec fn sorted_pair(a: StorageId, b: StorageId) -> Seq<StorageId> {
    if b.below(a) {
        seq![b, a]
    } else {
        seq![a, b]
    }
}

/// Sorting two ids gives the pair in ascending order.
pub proof fn lemma_sorted_pair(out: Seq<StorageId>, a: StorageId, b: StorageId)
    requires
        sorted(out),
        out.to_multiset() == seq![a, b].to_multiset(),
    ensures
        out == sorted_pair(a, b),
{
    let pair = sorted_pair(a, b);
    StorageId::lemma_total_order(a, b, a);
    assert(sorted(pair)) by {
        assert forall|i: int, j: int| 0 <= i < j < pair.len() implies !(#[trigger] pair[j]).below(
            #[trigger] pair[i],
        ) by {
            assert(i == 0 && j == 1);
        }
    }
    assert(pair.to_multiset() == seq![a, b].to_multiset()) by {
        if b.below(a) {
            assert(seq![b, a] =~= seq![b] + seq![a]);
            assert(seq![a, b] =~= seq![a] + seq![b]);
            vstd::seq_lib::lemma_seq_union_to_multiset_commutative(seq![a], seq![b]);
        }
    }
    lemma_sorted_unique(out, pair);
}

/// Two sorted lists that hold the same ids equally often are one list.
pub proof fn lemma_sorted_unique(first: Seq<StorageId>, second: Seq<StorageId>)
    requires
        sorted(first),
        sorted(second),
        first.to_multiset() == second.to_multiset(),
    ensures
        first == second,
    decreases first.len(),
{
    first.to_multiset_ensures();
    second.to_multiset_ensures();
    if first.len() == 0 {
        assert(second.len() == 0);
        assert(first =~= second);
    } else {
        let x = first.last();
        let y = second.last();
        assert(first.contains(x));
        assert(second.contains(y));
        assert(second.to_multiset().count(x) > 0);
        assert(first.to_multiset().count(y) > 0);
        assert(second.contains(x));
        assert(first.contains(y));
        let i = second.index_of(x);
        let j = first.index_of(y);
        StorageId::lemma_total_order(x, y, x);
        assert(!x.below(y)) by {
            assert(!first[first.len() - 1].below(first[j]));
        }
        assert(!y.below(x)) by {
            assert(!second[second.len() - 1].below(second[i]));
        }
        assert(x == y);
        assert(first.drop_last() =~= first.remove(first.len() - 1));
        assert(second.drop_last() =~= second.remove(second.len() - 1));
        vstd::seq_lib::to_multiset_remove(first, first.len() - 1);
        vstd::seq_lib::to_multiset_remove(second, second.len() - 1);
        assert(sorted(first.drop_last()));
        assert(sorted(second.drop_last()));
        lemma_sorted_unique(first.drop_last(), second.drop_last());
        assert(first =~= first.drop_last().push(x));
        assert(second =~= second.drop_last().push(y));
    }
}

/// The list of storages to pack after the target `id` was asked: a target
/// already listed adds nothing; another adds the storages of its pack if
/// the entity, found in `real_types`, belongs in the packed prefix.
pub open spec fn pack_step(
    should_pack: Seq<StorageId>,
    id: StorageId,
    shape: PackShape,
    real_types: Seq<StorageId>,
) -> Seq<StorageId> {
    if !should_pack.contains(id) && shape.packable(real_types) {
        should_pack + shape.types
    } else {
        should_pack
    }
}

/// The list of storages to unpack after a target was asked: the target
/// adds the storages of its pack and its observers.
pub open spec fn unpack_step(should_unpack: Seq<StorageId>, shape: PackShape) -> Seq<StorageId> {
    should_unpack + shape.siblings()
}

/// What `covered` says depends only on which ids the two lists hold.
pub proof fn lemma_covered_by_members(
    types: Seq<StorageId>,
    components: Seq<StorageId>,
    additionals: Seq<StorageId>,
    components2: Seq<StorageId>,
    additionals2: Seq<StorageId>,
)
    requires
        forall|id: StorageId|
            (components.contains(id) || additionals.contains(id)) <==> (components2.contains(id)
                || additionals2.contains(id)),
    ensures
        covered(types, components, additionals) == covered(types, components2, additionals2),
{
    if covered(types, components, additionals) {
        assert forall|i: int| 0 <= i < types.len() implies components2.contains(
            #[trigger] types[i],
        ) || additionals2.contains(types[i]) by {
            assert(components.contains(types[i]) || additionals.contains(types[i]));
        }
    }
    if covered(types, components2, additionals2) {
        assert forall|i: int| 0 <= i < types.len() implies components.contains(
            #[trigger] types[i],
        ) || additionals.contains(types[i]) by {
            assert(components2.contains(types[i]) || additionals2.contains(types[i]));
        }
    }
}

/// What pack metadata asks of the caller depends only on which ids the
/// caller's lists hold.
pub proof fn lemma_shape_by_members(
    shape: PackShape,
    components: Seq<StorageId>,
    additionals: Seq<StorageId>,
    components2: Seq<StorageId>,
    additionals2: Seq<StorageId>,
)
    requires
        forall|id: StorageId|
            (components.contains(id) || additionals.contains(id)) <==> (components2.contains(id)
                || additionals2.contains(id)),
    ensures
        shape.all_storages_in(components, additionals) == shape.all_storages_in(
            components2,
            additionals2,
        ),
{
    lemma_covered_by_members(shape.types, components, additionals, components2, additionals2);
    lemma_covered_by_members(shape.loose_types, components, additionals, components2, additionals2);
    lemma_covered_by_members(
        shape.observer_types,
        components,
        additionals,
        components2,
        additionals2,
    );
}

/// Whether an entity belongs in a packed prefix depends only on which
/// storages hold it.
pub proof fn lemma_packable_by_members(
    shape: PackShape,
    real_types: Seq<StorageId>,
    real_types2: Seq<StorageId>,
)
    requires
        forall|id: StorageId| real_types.contains(id) <==> real_types2.contains(id),
    ensures
        shape.packable(real_types) == shape.packable(real_types2),
{
    let none = Seq::<StorageId>::empty();
    assert forall|id: StorageId|
        (real_types.contains(id) || none.contains(id)) <==> (real_types2.contains(id)
            || none.contains(id)) by {}
    lemma_covered_by_members(shape.types, real_types, none, real_types2, none);
    lemma_covered_by_members(shape.loose_types, real_types, none, real_types2, none);
}

impl<T> PackView<T> {
    /// Whether the metadata belongs to a tight or a loose pack.
    pub open spec fn is_grouped(self) -> bool {
        self.kind == PackKind::Tight || self.kind == PackKind::Loose
    }

    /// Neither packed nor observed: bulk operations need no sibling.
    pub open spec fn is_plain(self) -> bool {
        self.kind == PackKind::NoPack && self.observer_types.len() == 0
    }

    /// Each kind of pack fills the lists that it has and leaves the
    /// others empty.
    pub open spec fn well_shaped(self) -> bool {
        &&& !self.is_grouped() ==> self.types.len() == 0
        &&& self.kind != PackKind::Loose ==> self.loose_types.len() == 0
        &&& self.kind != PackKind::Update ==> self.removed.len() == 0
    }

    /// The same metadata with other region bounds.
    pub open spec fn with_bounds(self, lo: int, hi: int) -> PackView<T> {
        PackView { lo, hi, ..self }
    }

    /// What the metadata says of other storages.
    pub open spec fn shape(self) -> PackShape {
        PackShape {
            kind: self.kind,
            types: self.types,
            loose_types: self.loose_types,
            observer_types: self.observer_types,
        }
    }
}

impl<T> PackInfo<T> {
    /// Metadata of a storage that is not packed and has no observer.
    pub fn new() -> (info: PackInfo<T>)
        ensures
            info.pack is NoPack,
            info.observer_types@ == Seq::<StorageId>::empty(),
            info@.is_plain(),
            info@.lo == 0,
            info@.hi == 0,
            info@.well_shaped(),
    {
        PackInfo { pack: Pack::NoPack, observer_types: Vec::new() }
    }

    /// Whether the storage is neither packed nor observed.
    pub fn plain(&self) -> (plain: bool)
        ensures
            plain == self@.is_plain(),
            plain ==> self@.types.len() == 0 && self@.loose_types.len() == 0,
    {
        match &self.pack {
            Pack::NoPack => self.observer_types.len() == 0,
            _ => false,
        }
    }

    /// Whether the storage has no pack.
    pub fn is_no_pack(&self) -> (no_pack: bool)
        ensures
            no_pack == (self@.kind == PackKind::NoPack),
    {
        match &self.pack {
            Pack::NoPack => true,
            _ => false,
        }
    }

    /// The refusal that a packed storage answers a new pack with.
    pub fn refusal(&self) -> (refusal: crate::error::Pack)
        requires
            self@.kind != PackKind::NoPack,
        ensures
            refusal == (match self@.kind {
                PackKind::Tight => crate::error::Pack::AlreadyTightPack,
                PackKind::Loose => crate::error::Pack::AlreadyLoosePack,
                _ => crate::error::Pack::AlreadyUpdatePack,
            }),
    {
        match &self.pack {
            Pack::Tight(_) => crate::error::Pack::AlreadyTightPack,
            Pack::Loose(_) => crate::error::Pack::AlreadyLoosePack,
            _ => crate::error::Pack::AlreadyUpdatePack,
        }
    }

    /// Whether the caller passed every storage that the metadata names:
    /// `components` are the targets of the operation, `additionals` the
    /// storages passed beside them.
    pub fn has_all_storages(&self, components: &[StorageId], additionals: &[StorageId]) -> (all:
        bool)
        ensures
            all == self@.shape().all_storages_in(components@, additionals@),
    {
        if !all_covered(self.observer_types.as_slice(), components, additionals) {
            return false;
        }
        match &self.pack {
            Pack::Tight(pack) => pack.has_all_storages(components, additionals),
            Pack::Loose(pack) => pack.has_all_storages(components, additionals),
            Pack::Update(_) => true,
            Pack::NoPack => true,
        }
    }

    /// Asks the pack of the target `id` whether an entity found in the
    /// storages `real_types` belongs in the packed prefix, and if so adds
    /// the storages of the pack to `should_pack`. A target already listed
    /// is not asked.
    pub fn collect_packable(
        &self,
        id: StorageId,
        real_types: &[StorageId],
        should_pack: &mut Vec<StorageId>,
    )
        ensures
            final(should_pack)@ == pack_step(old(should_pack)@, id, self@.shape(), real_types@),
    {
        if !contains_id(should_pack.as_slice(), id) {
            match &self.pack {
                Pack::Tight(pack) => {
                    match pack.is_packable(real_types) {
                        Ok(types) => {
                            append_ids(should_pack, types);
                        },
                        Err(_) => {},
                    }
                },
                Pack::Loose(pack) => {
                    match pack.is_packable(real_types) {
                        Ok(types) => {
                            append_ids(should_pack, types);
                        },
                        Err(_) => {},
                    }
                },
                Pack::Update(_) => {},
                Pack::NoPack => {},
            }
        }
    }

    /// Adds to `should_unpack` the storages to repair when an entity
    /// leaves this one: those whose prefixes mirror this one's, then the
    /// observers.
    pub fn collect_siblings(&self, should_unpack: &mut Vec<StorageId>)
        ensures
            final(should_unpack)@ == unpack_step(old(should_unpack)@, self@.shape()),
    {
        let ghost before = should_unpack@;
        match &self.pack {
            Pack::Tight(pack) => {
                append_ids(should_unpack, pack.types.as_slice());
            },
            Pack::Loose(pack) => {
                append_ids(should_unpack, pack.tight_types.as_slice());
            },
            Pack::Update(_) => {},
            Pack::NoPack => {},
        }
        append_ids(should_unpack, self.observer_types.as_slice());
        proof {
            assert(should_unpack@ =~= before + self@.shape().siblings());
        }
    }
}

} // verus!

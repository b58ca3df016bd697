//! Packing storages together, and what bulk operations keep of a pack.

use crate::entity_id::EntityId;
use crate::error;
use crate::model::{
    lemma_index_of, lemma_insert, lemma_pack_entity, lemma_remove, lemma_swapped,
    lemma_unpack_entity, swapped, Model,
};
use crate::pack::{covered, pack_step, sort_ids, unpack_step, PackKind};
use crate::sparse_set::SparseSet;
use crate::storage_id::StorageId;
use vstd::prelude::*;

verus! {

/// `s` without the element at `p`, whose place the last element takes.
pub open spec fn swap_removed<A>(s: Seq<A>, p: int) -> Seq<A> {
    s.update(p, s.last()).drop_last()
}

/// The two storages are tight-packed with each other and with nothing
/// else, and the pack is in order: both packed prefixes hold the same
/// entities at the same places, and they hold exactly the entities that
/// have a component in both storages.
pub open spec fn tight_pair<A, B>(a: Model<A>, id_a: StorageId, b: Model<B>, id_b: StorageId) -> bool {
    &&& a.pack.kind == PackKind::Tight
    &&& b.pack.kind == PackKind::Tight
    &&& a.pack.types == b.pack.types
    &&& forall|id: StorageId| a.pack.types.contains(id) <==> (id == id_a || id == id_b)
    &&& a.pack.loose_types.len() == 0
    &&& b.pack.loose_types.len() == 0
    &&& a.prefix() == b.prefix()
    &&& forall|e: EntityId| a.prefix().contains(e) <==> (a.has(e) && b.has(e))
}

/// No entity of the set occupies the slot of `e` with another generation.
pub open spec fn slot_free_for<T>(m: Model<T>, e: EntityId) -> bool {
    m.slot_taken(e.spec_index()) ==> m.has(e)
}

/// An entity lies in the prefix exactly if it stands below the bound, and
/// then at the same place in both.
pub proof fn lemma_prefix_member<T>(m: Model<T>, x: EntityId)
    requires
        m.wf(),
    ensures
        m.prefix().contains(x) <==> m.in_first_region(x),
        m.prefix().contains(x) ==> m.prefix().index_of(x) == m.position_of(x),
        m.prefix().no_duplicates(),
        m.prefix().len() == m.pack.lo,
{
    let prefix = m.prefix();
    assert forall|i: int, j: int|
        0 <= i < prefix.len() && 0 <= j < prefix.len() && i != j implies prefix[i] != prefix[j] by {
        assert(prefix[i] == m.ids[i] && prefix[j] == m.ids[j]);
        assert(m.ids[i].spec_index() != m.ids[j].spec_index());
    }
    if prefix.contains(x) {
        let k = prefix.index_of(x);
        assert(m.ids[k] == x);
        lemma_index_of(m.ids, k);
    }
    if m.in_first_region(x) {
        let p = m.position_of(x);
        assert(m.ids[p] == x);
        assert(prefix[p] == x);
    }
}

/// The packed prefix counts the entities that both storages of a tight
/// pair hold.
pub proof fn lemma_pair_count<A, B>(a: Model<A>, id_a: StorageId, b: Model<B>, id_b: StorageId)
    requires
        a.wf(),
        b.wf(),
        tight_pair(a, id_a, b, id_b),
    ensures
        a.pack.lo == b.pack.lo,
        Set::new(|e: EntityId| a.has(e) && b.has(e)) == a.prefix().to_set(),
        Set::new(|e: EntityId| a.has(e) && b.has(e)).len() == a.pack.lo,
        a.prefix().to_set() == b.prefix().to_set(),
{
    lemma_prefix_member(a, a.ids[0]);
    lemma_prefix_member(b, b.ids[0]);
    assert(Set::new(|e: EntityId| a.has(e) && b.has(e)) =~= a.prefix().to_set());
    a.prefix().unique_seq_to_set();
}

/// A storage of a tight pair that nobody else observes finds every
/// storage that its pack names when the other storage of the pair is
/// passed, as a target or beside the targets.
pub proof fn lemma_pair_surfaced<A, B>(a: Model<A>, id_a: StorageId, b: Model<B>, id_b: StorageId)
    requires
        tight_pair(a, id_a, b, id_b),
        a.pack.observer_types.len() == 0,
    ensures
        a.pack.shape().all_storages_in(seq![id_a], seq![id_b]),
        a.pack.shape().all_storages_in(seq![id_b], seq![id_a]),
        a.pack.shape().all_storages_in(seq![id_a, id_b], Seq::empty()),
        a.pack.shape().all_storages_in(seq![id_b, id_a], Seq::empty()),
        id_a != id_b ==> !a.pack.shape().all_storages_in(seq![id_a], Seq::empty()),
{
    let types = a.pack.types;
    assert(seq![id_a][0] == id_a && seq![id_b][0] == id_b);
    assert(seq![id_a, id_b][0] == id_a && seq![id_a, id_b][1] == id_b);
    assert(seq![id_b, id_a][0] == id_b && seq![id_b, id_a][1] == id_a);
    assert forall|i: int| 0 <= i < types.len() implies #[trigger] types[i] == id_a || types[i]
        == id_b by {
        assert(types.contains(types[i]));
    }
    if id_a != id_b {
        assert(types.contains(id_b));
        let k = types.index_of(id_b);
        assert(types[k] == id_b);
        if seq![id_a].contains(id_b) {
            let j = seq![id_a].index_of(id_b);
            assert(seq![id_a][j] == id_a);
        }
        assert(!covered(types, seq![id_a], Seq::empty()));
    }
}

/// Inserting into a storage of a tight or loose pack leaves the packed
/// prefix as it is.
pub proof fn lemma_insert_prefix<T>(m: Model<T>, e: EntityId, value: T)
    requires
        m.wf(),
        m.pack.is_grouped(),
        slot_free_for(m, e),
    ensures
        m.insert(e, value).wf(),
        m.insert(e, value).prefix() == m.prefix(),
        m.insert(e, value).pack == m.pack,
        m.insert(e, value).has(e),
        forall|x: EntityId| m.insert(e, value).has(x) <==> (m.has(x) || x == e),
{
    lemma_insert(m, e, value);
    if m.has(e) {
        let p = m.position_of(e);
        assert(m.ids[p] == e);
    }
    assert(m.insert(e, value).prefix() =~= m.prefix());
    assert forall|x: EntityId| m.insert(e, value).has(x) <==> (m.has(x) || x == e) by {
        if m.has(x) && x != e && x.spec_index() == e.spec_index() {
            let k = m.position_of(x);
            assert(m.ids[k] == x);
            assert(m.slot_taken(e.spec_index()));
            let p = m.position_of(e);
            assert(m.ids[p] == e);
        }
    }
}

/// Packing an entity appends it to the packed prefix, unless it lies
/// there already.
pub proof fn lemma_pack_prefix<T>(m: Model<T>, e: EntityId)
    requires
        m.wf(),
        m.pack.is_grouped(),
        m.has(e),
    ensures
        m.pack_entity(e).wf(),
        m.pack_entity(e).prefix() == (if m.prefix().contains(e) {
            m.prefix()
        } else {
            m.prefix().push(e)
        }),
        m.pack_entity(e).pack == m.pack.with_bounds(
            m.pack_entity(e).pack.lo,
            m.pack_entity(e).pack.hi,
        ),
        forall|x: EntityId| m.pack_entity(e).has(x) <==> m.has(x),
{
    lemma_pack_entity(m, e);
    lemma_prefix_member(m, e);
    let p = m.position_of(e);
    assert(m.ids[p] == e);
    if p >= m.pack.lo {
        assert(m.pack_entity(e).prefix() =~= m.prefix().push(e));
    }
}

/// Unpacking an entity takes it out of the packed prefix, where the last
/// entity of the prefix takes its place.
pub proof fn lemma_unpack_prefix<T>(m: Model<T>, e: EntityId)
    requires
        m.wf(),
        m.pack.is_grouped(),
    ensures
        m.unpack_entity(e).wf(),
        m.unpack_entity(e).prefix() == (if m.prefix().contains(e) {
            swap_removed(m.prefix(), m.prefix().index_of(e))
        } else {
            m.prefix()
        }),
        m.unpack_entity(e).pack == m.pack.with_bounds(
            m.unpack_entity(e).pack.lo,
            m.unpack_entity(e).pack.hi,
        ),
        forall|x: EntityId| m.unpack_entity(e).has(x) <==> m.has(x),
{
    lemma_unpack_entity(m, e);
    lemma_prefix_member(m, e);
    if m.prefix().contains(e) {
        let p = m.position_of(e);
        assert(m.ids[p] == e);
        assert(m.unpack_entity(e).prefix() =~= swap_removed(m.prefix(), p));
    }
}

/// Removing an entity takes it out of the packed prefix as unpacking does.
pub proof fn lemma_remove_prefix<T>(m: Model<T>, e: EntityId)
    requires
        m.wf(),
        m.pack.is_grouped(),
    ensures
        m.without(e).wf(),
        m.without(e).prefix() == (if m.prefix().contains(e) {
            swap_removed(m.prefix(), m.prefix().index_of(e))
        } else {
            m.prefix()
        }),
        m.without(e).pack == m.pack.with_bounds(m.without(e).pack.lo, m.without(e).pack.hi),
        forall|x: EntityId| m.without(e).has(x) <==> (m.has(x) && x != e),
{
    lemma_prefix_member(m, e);
    if m.has(e) {
        lemma_remove(m, e);
        let p = m.position_of(e);
        let lo = m.pack.lo;
        let n = m.ids.len() as int;
        assert(m.ids[p] == e);
        if p < lo {
            let once = swapped(m.ids, p, lo - 1);
            assert(swapped(once, lo - 1, lo - 1) =~= once);
            assert(m.without(e).prefix() =~= swap_removed(m.prefix(), p));
        } else {
            assert(m.without(e).prefix() =~= m.prefix());
        }
    }
}

/// What a swap-removal leaves of a sequence without duplicates.
pub proof fn lemma_swap_removed_members<A>(s: Seq<A>, p: int, x: A)
    requires
        s.no_duplicates(),
        0 <= p < s.len(),
    ensures
        swap_removed(s, p).contains(x) <==> (s.contains(x) && x != s[p]),
{
    let r = swap_removed(s, p);
    if r.contains(x) {
        let k = r.index_of(x);
        if k == p {
            assert(s[s.len() - 1] == x);
        } else {
            assert(s[k] == x);
        }
    }
    if s.contains(x) && x != s[p] {
        let k = s.index_of(x);
        if k == s.len() - 1 {
            assert(r[p] == x);
        } else {
            assert(r[k] == x);
        }
    }
}

/// Pack prefix, bulk addition to both storages of a tight pair: after
/// both took a component for `e`, the pair is in order again.
pub proof fn lemma_pair_add_both<A, B>(
    a: Model<A>,
    id_a: StorageId,
    b: Model<B>,
    id_b: StorageId,
    e: EntityId,
    value_a: A,
    value_b: B,
)
    requires
        a.wf(),
        b.wf(),
        tight_pair(a, id_a, b, id_b),
        slot_free_for(a, e),
        slot_free_for(b, e),
    ensures
        ({
            let held = seq![id_a, id_b];
            let should_pack = pack_step(
                pack_step(Seq::empty(), id_a, a.pack.shape(), held),
                id_b,
                b.pack.shape(),
                held,
            );
            let after_a = a.insert(e, value_a).packed_if(should_pack.contains(id_a), e);
            let after_b = b.insert(e, value_b).packed_if(should_pack.contains(id_b), e);
            &&& after_a.wf()
            &&& after_b.wf()
            &&& tight_pair(after_a, id_a, after_b, id_b)
        }),
{
    let held = seq![id_a, id_b];
    let first = pack_step(Seq::empty(), id_a, a.pack.shape(), held);
    let should_pack = pack_step(first, id_b, b.pack.shape(), held);
    assert(held[0] == id_a && held[1] == id_b);
    assert(covered(a.pack.types, held, Seq::empty())) by {
        assert forall|i: int| 0 <= i < a.pack.types.len() implies held.contains(
            #[trigger] a.pack.types[i],
        ) || Seq::<StorageId>::empty().contains(a.pack.types[i]) by {
            assert(a.pack.types.contains(a.pack.types[i]));
        }
    }
    assert(first =~= a.pack.types);
    assert(should_pack.contains(id_a) && should_pack.contains(id_b)) by {
        assert(a.pack.types.contains(id_a) && a.pack.types.contains(id_b));
        if first.contains(id_b) {
        } else {
        }
    }
    lemma_insert_prefix(a, e, value_a);
    lemma_insert_prefix(b, e, value_b);
    let a1 = a.insert(e, value_a);
    let b1 = b.insert(e, value_b);
    lemma_pack_prefix(a1, e);
    lemma_pack_prefix(b1, e);
    let a2 = a1.pack_entity(e);
    let b2 = b1.pack_entity(e);
    assert forall|x: EntityId| a2.prefix().contains(x) <==> (a2.has(x) && b2.has(x)) by {
        assert(a2.has(x) <==> (a.has(x) || x == e));
        assert(b2.has(x) <==> (b.has(x) || x == e));
        if !a.prefix().contains(e) {
            assert(a.prefix().push(e).contains(x) <==> (a.prefix().contains(x) || x == e)) by {
                if a.prefix().contains(x) {
                    let k = a.prefix().index_of(x);
                    assert(a.prefix().push(e)[k] == x);
                }
                assert(a.prefix().push(e)[a.prefix().len() as int] == e);
            }
        }
    }
}

/// Pack prefix, bulk addition to one storage of a tight pair with the
/// other passed beside it: after `a` took a component for `e`, the pair
/// is in order again.
pub proof fn lemma_pair_add_one<A, B>(
    a: Model<A>,
    id_a: StorageId,
    b: Model<B>,
    id_b: StorageId,
    e: EntityId,
    value: A,
)
    requires
        a.wf(),
        b.wf(),
        id_a != id_b,
        tight_pair(a, id_a, b, id_b),
        slot_free_for(a, e),
    ensures
        ({
            let should_pack = pack_step(
                Seq::empty(),
                id_a,
                a.pack.shape(),
                crate::add_component::real_types(seq![id_a], seq![(id_b, b.has(e))]),
            );
            let after_a = a.insert(e, value).packed_if(should_pack.contains(id_a), e);
            let after_b = b.packed_if(should_pack.contains(id_b), e);
            &&& after_a.wf()
            &&& after_b.wf()
            &&& tight_pair(after_a, id_a, after_b, id_b)
        }),
{
    let beside = seq![(id_b, b.has(e))];
    assert(beside.drop_last() =~= Seq::<(StorageId, bool)>::empty());
    let held = crate::add_component::real_types(seq![id_a], beside);
    assert(crate::add_component::real_types(seq![id_a], beside.drop_last()) == seq![id_a]);
    let should_pack = pack_step(Seq::empty(), id_a, a.pack.shape(), held);
    assert(a.pack.types.contains(id_a) && a.pack.types.contains(id_b));
    lemma_insert_prefix(a, e, value);
    let a1 = a.insert(e, value);
    if b.has(e) {
        assert(held =~= seq![id_a, id_b]);
        assert(held[0] == id_a && held[1] == id_b);
        assert(covered(a.pack.types, held, Seq::empty())) by {
            assert forall|i: int| 0 <= i < a.pack.types.len() implies held.contains(
                #[trigger] a.pack.types[i],
            ) || Seq::<StorageId>::empty().contains(a.pack.types[i]) by {
                assert(a.pack.types.contains(a.pack.types[i]));
            }
        }
        assert(should_pack =~= a.pack.types);
        lemma_pack_prefix(a1, e);
        lemma_pack_prefix(b, e);
        let a2 = a1.pack_entity(e);
        let b2 = b.pack_entity(e);
        assert forall|x: EntityId| a2.prefix().contains(x) <==> (a2.has(x) && b2.has(x)) by {
            assert(a2.has(x) <==> (a.has(x) || x == e));
            assert(b2.has(x) <==> b.has(x));
            if !a.prefix().contains(e) {
                assert(a.prefix().push(e).contains(x) <==> (a.prefix().contains(x) || x == e)) by {
                    if a.prefix().contains(x) {
                        let k = a.prefix().index_of(x);
                        assert(a.prefix().push(e)[k] == x);
                    }
                    assert(a.prefix().push(e)[a.prefix().len() as int] == e);
                }
            }
        }
    } else {
        assert(held =~= seq![id_a]);
        assert(!covered(a.pack.types, held, Seq::empty())) by {
            let k = a.pack.types.index_of(id_b);
            assert(a.pack.types[k] == id_b);
            if held.contains(id_b) {
                let j = held.index_of(id_b);
                assert(held[j] == id_a);
            }
        }
        assert(should_pack =~= Seq::<StorageId>::empty());
        assert forall|x: EntityId| a1.prefix().contains(x) <==> (a1.has(x) && b.has(x)) by {
            assert(a1.has(x) <==> (a.has(x) || x == e));
        }
    }
}

/// Pack prefix, bulk removal from both storages of a tight pair: after
/// both gave up their component of `e`, the pair is in order again.
pub proof fn lemma_pair_remove_both<A, B>(
    a: Model<A>,
    id_a: StorageId,
    b: Model<B>,
    id_b: StorageId,
    e: EntityId,
)
    requires
        a.wf(),
        b.wf(),
        tight_pair(a, id_a, b, id_b),
    ensures
        a.without(e).wf(),
        b.without(e).wf(),
        tight_pair(a.without(e), id_a, b.without(e), id_b),
{
    lemma_remove_prefix(a, e);
    lemma_remove_prefix(b, e);
    lemma_prefix_member(a, e);
    let a2 = a.without(e);
    let b2 = b.without(e);
    assert forall|x: EntityId| a2.prefix().contains(x) <==> (a2.has(x) && b2.has(x)) by {
        assert(a.prefix().contains(x) <==> (a.has(x) && b.has(x)));
        if a.prefix().contains(e) {
            let p = a.prefix().index_of(e);
            assert(a.prefix()[p] == e);
            lemma_swap_removed_members(a.prefix(), p, x);
            assert(a2.prefix() == swap_removed(a.prefix(), p));
        } else {
            assert(a2.prefix() == a.prefix());
        }
    }
}

/// Pack prefix, bulk removal from one storage of a tight pair with the
/// other passed beside it: after `a` gave up its component of `e` and `b`
/// was unpacked, the pair is in order again.
pub proof fn lemma_pair_remove_one<A, B>(
    a: Model<A>,
    id_a: StorageId,
    b: Model<B>,
    id_b: StorageId,
    e: EntityId,
)
    requires
        a.wf(),
        b.wf(),
        tight_pair(a, id_a, b, id_b),
    ensures
        ({
            let should_unpack = unpack_step(Seq::empty(), a.pack.shape());
            let after_a = a.without(e);
            let after_b = b.unpacked_if(should_unpack.contains(id_b), e);
            &&& after_a.wf()
            &&& after_b.wf()
            &&& tight_pair(after_a, id_a, after_b, id_b)
        }),
{
    let should_unpack = unpack_step(Seq::empty(), a.pack.shape());
    assert(should_unpack.contains(id_b)) by {
        let k = a.pack.types.index_of(id_b);
        assert(a.pack.types.contains(id_b));
        assert(a.pack.types[k] == id_b);
        assert(should_unpack[k] == id_b);
    }
    lemma_remove_prefix(a, e);
    lemma_unpack_prefix(b, e);
    lemma_prefix_member(a, e);
    let a2 = a.without(e);
    let b2 = b.unpack_entity(e);
    assert forall|x: EntityId| a2.prefix().contains(x) <==> (a2.has(x) && b2.has(x)) by {
        assert(a.prefix().contains(x) <==> (a.has(x) && b.has(x)));
        if a.prefix().contains(e) {
            let p = a.prefix().index_of(e);
            assert(a.prefix()[p] == e);
            lemma_swap_removed_members(a.prefix(), p, x);
            assert(a2.prefix() == swap_removed(a.prefix(), p));
        } else {
            assert(a2.prefix() == a.prefix());
        }
    }
}

/// The refusal that a storage packed as `kind` answers a new pack with.
pub open spec fn already_packed(kind: PackKind) -> Option<error::Pack> {
    match kind {
        PackKind::Tight => Some(error::Pack::AlreadyTightPack),
        PackKind::Loose => Some(error::Pack::AlreadyLoosePack),
        PackKind::Update => Some(error::Pack::AlreadyUpdatePack),
        PackKind::NoPack => None,
    }
}

/// The storage `a` is loose-packed over `b`: its packed prefix holds
/// exactly its entities that have a component in `b`, and `b` has `a`
/// among its observers.
pub open spec fn loose_pair<A, B>(a: Model<A>, id_a: StorageId, b: Model<B>, id_b: StorageId) -> bool {
    &&& a.pack.kind == PackKind::Loose
    &&& a.pack.types == seq![id_a]
    &&& a.pack.loose_types == seq![id_b]
    &&& b.pack.observer_types.contains(id_a)
    &&& forall|e: EntityId| a.prefix().contains(e) <==> (a.has(e) && b.has(e))
}

/// Brings the entities of `a` that `b` holds to the front of `a`, behind
/// the packed prefix; if `both`, brings them to the front of `b` as well,
/// in the same order.
fn pack_common<A, B>(a: &mut SparseSet<A>, b: &mut SparseSet<B>, both: bool)
    requires
        old(a).wf(),
        old(b).wf(),
        old(a).pack_view().is_grouped(),
        old(a).pack_view().lo == 0,
        both ==> old(b).pack_view().is_grouped() && old(b).pack_view().lo == 0,
    ensures
        final(a).wf(),
        final(b).wf(),
        final(a).storage_id() == old(a).storage_id(),
        final(b).storage_id() == old(b).storage_id(),
        final(a)@ == old(a)@,
        final(b)@ == old(b)@,
        final(a).pack_view() == old(a).pack_view().with_bounds(
            final(a).pack_view().lo,
            final(a).pack_view().hi,
        ),
        final(b).pack_view() == old(b).pack_view().with_bounds(
            final(b).pack_view().lo,
            final(b).pack_view().hi,
        ),
        forall|e: EntityId| final(a).has(e) <==> old(a).has(e),
        forall|e: EntityId| final(b).has(e) <==> old(b).has(e),
        forall|e: EntityId|
            final(a).model().prefix().contains(e) <==> (final(a).model().has(e) && final(b).model().has(e)),
        both ==> final(a).model().prefix() == final(b).model().prefix(),
        !both ==> final(b).model() == old(b).model(),
        final(a).model() == old(a).model().gathered(
            old(b).ids().to_set(),
            old(a).ids().len() as int,
        ),
        both ==> final(b).model() == old(b).model().gathered_after(
            old(a).model(),
            old(b).ids().to_set(),
            old(a).ids().len() as int,
        ),
{
    let mut i: usize = 0;
    proof {
        assert(a.model().prefix() =~= Seq::<EntityId>::empty());
        if both {
            assert(b.model().prefix() =~= Seq::<EntityId>::empty());
        }
    }
    while i < a.len()
        invariant
            a.wf(),
            b.wf(),
            a.storage_id() == old(a).storage_id(),
            b.storage_id() == old(b).storage_id(),
            a@ == old(a)@,
            b@ == old(b)@,
            a.pack_view().is_grouped(),
            both ==> b.pack_view().is_grouped(),
            a.pack_view() == old(a).pack_view().with_bounds(a.pack_view().lo, a.pack_view().hi),
            b.pack_view() == old(b).pack_view().with_bounds(b.pack_view().lo, b.pack_view().hi),
            forall|e: EntityId| a.has(e) <==> old(a).has(e),
            forall|e: EntityId| b.has(e) <==> old(b).has(e),
            a.pack_view().lo <= i <= a.ids().len(),
            forall|e: EntityId| a.model().prefix().contains(e) ==> a.has(e) && b.has(e),
            forall|k: int| a.pack_view().lo <= k < i ==> !b.has(#[trigger] a.ids()[k]),
            both ==> a.model().prefix() == b.model().prefix(),
            !both ==> b.model() == old(b).model(),
            a.ids().len() == old(a).ids().len(),
            a.model() == old(a).model().gathered(old(b).ids().to_set(), i as int),
            both ==> b.model() == old(b).model().gathered_after(
                old(a).model(),
                old(b).ids().to_set(),
                i as int,
            ),
        decreases a.ids().len() - i,
    {
        let e = a.id_at(i);
        proof {
            assert(old(b).ids().to_set().contains(e) <==> old(b).has(e));
            assert(old(b).model().has(e) <==> b.has(e));
        }
        let ghost before_a = a.model();
        let ghost before_b = b.model();
        proof {
            lemma_index_of(before_a.ids, i as int);
            lemma_prefix_member(before_a, e);
        }
        if b.contains(e) {
            proof {
                lemma_pack_prefix(before_a, e);
                if both {
                    lemma_pack_prefix(before_b, e);
                }
                lemma_swapped(before_a.ids, before_a.values, i as int, before_a.pack.lo);
            }
            a.pack(e);
            if both {
                b.pack(e);
            }
            proof {
                let lo = before_a.pack.lo;
                assert forall|x: EntityId| b.has(x) <==> old(b).has(x) by {
                    assert(b.has(x) <==> before_b.has(x));
                }
                assert forall|x: EntityId| a.has(x) <==> old(a).has(x) by {
                    assert(a.has(x) <==> before_a.has(x));
                }
                assert(a.model().prefix() == before_a.prefix().push(e));
                assert forall|x: EntityId| a.model().prefix().contains(x) implies a.has(x) && b.has(
                    x,
                ) by {
                    let k = a.model().prefix().index_of(x);
                    if k < lo {
                        assert(before_a.prefix()[k] == x);
                    }
                }
                assert forall|k: int| a.pack_view().lo <= k < i + 1 implies !b.has(
                    #[trigger] a.ids()[k],
                ) by {
                    if k == i {
                        assert(a.ids()[k] == before_a.ids[lo]);
                    } else {
                        assert(a.ids()[k] == before_a.ids[k]);
                    }
                }
            }
        }
        i += 1;
    }
    proof {
        assert forall|e: EntityId|
            a.model().prefix().contains(e) <==> (a.model().has(e) && b.model().has(e)) by {
            if a.has(e) && b.has(e) {
                let p = a.model().position_of(e);
                assert(a.ids()[p] == e);
                lemma_prefix_member(a.model(), e);
            }
            if a.model().prefix().contains(e) {
                assert(a.has(e) && b.has(e));
            }
        }
    }
}

/// Tight-packs the two storages: the entities that both hold stand at the
/// front of both dense arrays from here on, in the same order. A storage
/// that has a pack already refuses.
pub fn tight_pack<A, B>(a: &mut SparseSet<A>, b: &mut SparseSet<B>) -> (done: Result<
    (),
    error::Pack,
>)
    requires
        old(a).wf(),
        old(b).wf(),
    ensures
        final(a).wf(),
        final(b).wf(),
        final(a).storage_id() == old(a).storage_id(),
        final(b).storage_id() == old(b).storage_id(),
        done == (match already_packed(old(a).pack_view().kind) {
            Some(refusal) => Err::<(), error::Pack>(refusal),
            None => match already_packed(old(b).pack_view().kind) {
                Some(refusal) => Err(refusal),
                None => Ok(()),
            },
        }),
        done is Err ==> *final(a) == *old(a) && *final(b) == *old(b),
        done is Ok ==> {
            &&& tight_pair(final(a).model(), old(a).storage_id(), final(b).model(), old(b).storage_id())
            &&& crate::pack::sorted(final(a).pack_view().types)
            &&& final(a)@ == old(a)@
            &&& final(b)@ == old(b)@
            &&& final(a).pack_view().observer_types == old(a).pack_view().observer_types
            &&& final(b).pack_view().observer_types == old(b).pack_view().observer_types
            &&& ({
                let types = crate::pack::sorted_pair(old(a).storage_id(), old(b).storage_id());
                let leader = old(a).model().tight_packed(types);
                let count = old(a).ids().len() as int;
                &&& final(a).model() == leader.gathered(old(b).ids().to_set(), count)
                &&& final(b).model() == old(b).model().tight_packed(types).gathered_after(
                    leader,
                    old(b).ids().to_set(),
                    count,
                )
            })
        },
{
    if !a.pack_info().is_no_pack() {
        return Err(a.pack_info().refusal());
    }
    if !b.pack_info().is_no_pack() {
        return Err(b.pack_info().refusal());
    }
    let mut ids: Vec<StorageId> = Vec::new();
    ids.push(a.id());
    ids.push(b.id());
    let types_a = sort_ids(ids.as_slice());
    let types_b = sort_ids(ids.as_slice());
    proof {
        assert(ids@ =~= seq![a.storage_id(), b.storage_id()]);
        assert(ids@[0] == a.storage_id() && ids@[1] == b.storage_id());
        assert forall|id: StorageId| ids@.contains(id) <==> (id == a.storage_id() || id
            == b.storage_id()) by {
            if ids@.contains(id) {
                let k = ids@.index_of(id);
            }
        }
        crate::pack::lemma_sorted_pair(types_a@, a.storage_id(), b.storage_id());
        crate::pack::lemma_sorted_pair(types_b@, a.storage_id(), b.storage_id());
    }
    let done_a = a.try_tight_pack(types_a);
    let done_b = b.try_tight_pack(types_b);
    pack_common(a, b, true);
    Ok(())
}

/// Loose-packs `a` over `b`: the entities of `a` that `b` holds stand at
/// the front of the dense array of `a`; `b` keeps its own order and gets
/// `a` as an observer. If `a` has a pack already it refuses.
pub fn loose_pack<A, B>(a: &mut SparseSet<A>, b: &mut SparseSet<B>) -> (done: Result<
    (),
    error::Pack,
>)
    requires
        old(a).wf(),
        old(b).wf(),
    ensures
        final(a).wf(),
        final(b).wf(),
        final(a).storage_id() == old(a).storage_id(),
        final(b).storage_id() == old(b).storage_id(),
        done == (match already_packed(old(a).pack_view().kind) {
            Some(refusal) => Err::<(), error::Pack>(refusal),
            None => Ok(()),
        }),
        done is Err ==> *final(a) == *old(a) && *final(b) == *old(b),
        done is Ok ==> {
            &&& loose_pair(final(a).model(), old(a).storage_id(), final(b).model(), old(b).storage_id())
            &&& final(a)@ == old(a)@
            &&& final(b).model() == old(b).model().observed_by(old(a).storage_id())
            &&& final(a).pack_view().observer_types == old(a).pack_view().observer_types
            &&& final(a).model() == old(a).model().loose_packed(
                seq![old(a).storage_id()],
                seq![old(b).storage_id()],
            ).gathered(old(b).ids().to_set(), old(a).ids().len() as int)
        },
{
    if !a.pack_info().is_no_pack() {
        return Err(a.pack_info().refusal());
    }
    let mut tight_types: Vec<StorageId> = Vec::new();
    tight_types.push(a.id());
    let mut loose_types: Vec<StorageId> = Vec::new();
    loose_types.push(b.id());
    proof {
        assert(tight_types@ =~= seq![a.storage_id()]);
        assert(loose_types@ =~= seq![b.storage_id()]);
    }
    let done_a = a.try_loose_pack(tight_types, loose_types);
    b.add_observer(a.id());
    proof {
        let observers = b.pack_view().observer_types;
        if !old(b).pack_view().observer_types.contains(a.storage_id()) {
            assert(observers[observers.len() - 1] == a.storage_id());
        }
    }
    pack_common(a, b, false);
    Ok(())
}

} // verus!

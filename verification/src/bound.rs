//! How much work a drain can be. Every command waiting in the queue costs one
//! step, a link may add two pairs to the records, and every pair in the
//! records may call for one unlink when its owner is destroyed. So the steps
//! of a drain are bounded by the commands that wait, twice the links among
//! them, and the pairs that the records hold.

use crate::model::{
    half_edges, is_cascade, lemma_with_partner, lemma_without_partner, partners_of, CommandView,
    KindView, Records, WorldView,
};
use crate::preserve::lemma_despawn_tail;
use crate::role::Role;
use vstd::prelude::*;

verus! {

/// What a waiting command counts for: its own step, and for a link the two
/// pairs that it may add.
pub open spec fn weight(command: CommandView) -> nat {
    match command {
        CommandView::Link { .. } => 3,
        _ => 1,
    }
}

/// What the commands of a queue count for together.
pub open spec fn queue_weight(queue: Seq<CommandView>) -> nat
    decreases queue.len(),
{
    if queue.len() == 0 {
        0
    } else {
        weight(queue[0]) + queue_weight(queue.drop_first())
    }
}

impl KindView {
    /// The number of pairs of owner and partner that the records of the kind
    /// hold, both roles together.
    pub open spec fn size(self) -> nat {
        half_edges(self.first).len() + half_edges(self.second).len()
    }
}

/// The number of pairs that the records of all kinds hold.
pub open spec fn total_size(kinds: Seq<KindView>) -> nat
    decreases kinds.len(),
{
    if kinds.len() == 0 {
        0
    } else {
        total_size(kinds.drop_last()) + kinds.last().size()
    }
}

impl WorldView {
    /// The number of pairs that the records hold.
    pub open spec fn size(self) -> nat {
        total_size(self.kinds)
    }

    /// A bound on the steps that draining the queue takes.
    pub open spec fn drain_bound(self) -> nat {
        queue_weight(self.queue) + self.size()
    }
}

/// The weight of two queues in a row is the sum of their weights.
pub proof fn lemma_weight_append(queue: Seq<CommandView>, tail: Seq<CommandView>)
    ensures
        queue_weight(queue + tail) == queue_weight(queue) + queue_weight(tail),
    decreases queue.len(),
{
    if queue.len() == 0 {
        assert(queue + tail =~= tail);
    } else {
        assert((queue + tail)[0] == queue[0]);
        assert((queue + tail).drop_first() =~= queue.drop_first() + tail);
        lemma_weight_append(queue.drop_first(), tail);
    }
}

/// A queue of unlinks weighs as much as it is long.
pub proof fn lemma_weight_unlinks(tail: Seq<CommandView>)
    requires
        forall|i: int| 0 <= i < tail.len() ==> (#[trigger] tail[i]) is Unlink,
    ensures
        queue_weight(tail) == tail.len(),
    decreases tail.len(),
{
    if tail.len() > 0 {
        assert forall|i: int| 0 <= i < tail.drop_first().len() implies (
        #[trigger] tail.drop_first()[i]) is Unlink by {
            assert(tail.drop_first()[i] == tail[i + 1]);
        }
        lemma_weight_unlinks(tail.drop_first());
    }
}

/// Changing one kind changes the total size by what the size of the kind
/// changes.
pub proof fn lemma_total_size_update(kinds: Seq<KindView>, kind: int, changed: KindView)
    requires
        0 <= kind < kinds.len(),
    ensures
        total_size(kinds.update(kind, changed)) + kinds[kind].size() == total_size(kinds)
            + changed.size(),
    decreases kinds.len(),
{
    let after = kinds.update(kind, changed);
    if kind == kinds.len() - 1 {
        assert(after.drop_last() =~= kinds.drop_last());
    } else {
        assert(after.drop_last() =~= kinds.drop_last().update(kind, changed));
        assert(after.last() == kinds.last());
        lemma_total_size_update(kinds.drop_last(), kind, changed);
    }
}

/// Removing a record takes away as many pairs as the record named partners.
pub proof fn lemma_remove_record_size(records: Records, owner: u64)
    requires
        half_edges(records).finite(),
    ensures
        half_edges(records.remove(owner)).finite(),
        partners_of(records, owner).finite(),
        half_edges(records.remove(owner)).len() + partners_of(records, owner).len() == half_edges(
            records,
        ).len(),
{
    let all = half_edges(records);
    let kept = half_edges(records.remove(owner));
    let partners = partners_of(records, owner);
    let gone = Set::new(|pair: (u64, u64)| pair.0 == owner && partners.contains(pair.1));
    assert(kept.subset_of(all));
    assert(gone.subset_of(all));
    vstd::set_lib::lemma_set_subset_finite(all, kept);
    vstd::set_lib::lemma_set_subset_finite(all, gone);
    assert(kept + gone =~= all);
    assert(kept.disjoint(gone));
    vstd::set_lib::lemma_set_disjoint_lens(kept, gone);
    let second = |pair: (u64, u64)| pair.1;
    assert(gone.map(second) =~= partners) by {
        assert forall|partner: u64| partners.contains(partner) implies gone.map(second).contains(
            partner,
        ) by {
            assert(gone.contains((owner, partner)));
            assert(second((owner, partner)) == partner);
        }
    }
    assert(vstd::relations::injective_on(second, gone));
    vstd::set_lib::lemma_map_size(gone, partners, second);
}

/// A link adds at most two pairs.
pub proof fn lemma_link_size(world: WorldView, kind: usize, moder: u64, entity: u64)
    requires
        world.inv(),
    ensures
        world.link(kind, moder, entity).size() <= world.size() + 2,
{
    if kind < world.kinds.len() && world.live.contains(moder) && world.live.contains(entity) {
        let before = world.kinds[kind as int];
        assert(before.inv(world.live));
        lemma_with_partner(before.first, moder, entity);
        lemma_with_partner(before.second, entity, moder);
        lemma_total_size_update(world.kinds, kind as int, before.link(moder, entity));
    }
}

/// An unlink adds no pair.
pub proof fn lemma_unlink_size(world: WorldView, kind: usize, moder: u64, entity: u64)
    requires
        world.inv(),
    ensures
        world.unlink(kind, moder, entity).size() <= world.size(),
{
    if kind < world.kinds.len() {
        let before = world.kinds[kind as int];
        assert(before.inv(world.live));
        lemma_without_partner(before.first, moder, entity);
        lemma_without_partner(before.second, entity, moder);
        lemma_total_size_update(world.kinds, kind as int, before.unlink(moder, entity));
    }
}

/// Removing a record with its cascade takes away as many pairs as the
/// cascade enqueues unlinks.
pub proof fn lemma_clear_size(world: WorldView, role: Role, owner: u64, tail: Seq<CommandView>)
    requires
        world.inv(),
        is_cascade(tail, role, owner, partners_of(world.records(role), owner)),
    ensures
        world.clear(role, owner, tail).size() + tail.len() == world.size(),
{
    if role.kind < world.kinds.len() {
        let before = world.kinds[role.kind as int];
        assert(before.inv(world.live));
        lemma_remove_record_size(before.first, owner);
        lemma_remove_record_size(before.second, owner);
        lemma_total_size_update(world.kinds, role.kind as int, before.clear(role.side, owner));
    } else {
        assert(partners_of(world.records(role), owner).len() == 0);
    }
}

/// Every step makes the bound smaller.
pub proof fn lemma_step_bound(world: WorldView, after: WorldView)
    requires
        world.inv(),
        world.queue.len() > 0,
        world.steps_to(after),
    ensures
        after.drain_bound() < world.drain_bound(),
{
    let rest = world.with_queue(world.queue.drop_first());
    match world.queue[0] {
        CommandView::Link { kind, moder, entity } => {
            lemma_link_size(world, kind, moder, entity);
            assert(rest.link(kind, moder, entity).kinds == world.link(kind, moder, entity).kinds);
        },
        CommandView::Unlink { kind, moder, entity } => {
            lemma_unlink_size(world, kind, moder, entity);
            assert(rest.unlink(kind, moder, entity).kinds == world.unlink(
                kind,
                moder,
                entity,
            ).kinds);
        },
        CommandView::Despawn { entity } => {
            let tail = after.queue.skip(rest.queue.len() as int);
            assert(after.queue =~= rest.queue + tail);
            lemma_despawn_tail(rest, entity, after);
            assert forall|i: int| 0 <= i < tail.len() implies (#[trigger] tail[i]) is Unlink by {
                assert(tail[i] == after.queue[rest.queue.len() + i]);
            }
            lemma_weight_unlinks(tail);
            lemma_weight_append(rest.queue, tail);
        },
    }
}

} // verus!

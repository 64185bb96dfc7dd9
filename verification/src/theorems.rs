//! What holds of every world: the theorems that the operations rest on,
//! stated over the model.

use crate::bound::lemma_step_bound;
use crate::preserve::lemma_steps_to_inv;
use crate::model::{holds, lemma_with_partner, CommandView, KindView, WorldView};
use crate::role::{Role, Side};
use crate::settle::{lemma_despawn_relations, lemma_run_all_push, Relations};
use vstd::prelude::*;

verus! {

/// Once the queue is drained, the two roles of every kind agree: a moder
/// names an entity exactly when the entity names the moder.
pub proof fn drained_world_is_symmetric(world: WorldView, kind: usize, moder: u64, entity: u64)
    requires
        world.inv(),
        world.queue.len() == 0,
        kind < world.kinds.len(),
    ensures
        holds(world.kinds[kind as int].first, moder, entity) <==> holds(
            world.kinds[kind as int].second,
            entity,
            moder,
        ),
{
    let k = world.kinds[kind as int];
    if k.forward(moder, entity) && !k.backward(moder, entity) {
        assert(world.queue.contains(CommandView::Unlink { kind, moder, entity }));
    }
    if k.backward(moder, entity) && !k.forward(moder, entity) {
        assert(world.queue.contains(CommandView::Unlink { kind, moder, entity }));
    }
}

/// Once the queue is drained, every kind is symmetric, and no record names
/// an entity that does not live.
pub proof fn drained_world_is_consistent(world: WorldView)
    requires
        world.inv(),
        world.queue.len() == 0,
    ensures
        world.symmetric(),
        world.no_dangling(),
{
    assert forall|kind: int| 0 <= kind < world.kinds.len() implies (
    #[trigger] world.kinds[kind]).symmetric() by {
        assert forall|moder: u64, entity: u64|
            world.kinds[kind].forward(moder, entity) <==> world.kinds[kind].backward(
                moder,
                entity,
            ) by {
            drained_world_is_symmetric(world, kind as usize, moder, entity);
        }
    }
    assert forall|role: Role, owner: u64, partner: u64| #[trigger]
        holds(world.records(role), owner, partner) implies world.live.contains(partner) by {
        let kind = world.kinds[role.kind as int];
        assert(kind.inv(world.live));
        match role.side {
            Side::First => {
                drained_world_is_symmetric(world, role.kind, owner, partner);
                assert(kind.second.dom().contains(partner));
            },
            Side::Second => {
                drained_world_is_symmetric(world, role.kind, partner, owner);
                assert(kind.first.dom().contains(partner));
            },
        }
    }
}

/// Linking a pair that has just been linked changes nothing.
pub proof fn link_is_idempotent(world: WorldView, kind: usize, moder: u64, entity: u64)
    ensures
        world.link(kind, moder, entity).link(kind, moder, entity) == world.link(
            kind,
            moder,
            entity,
        ),
{
    let once = world.link(kind, moder, entity);
    let twice = once.link(kind, moder, entity);
    if kind < world.kinds.len() && world.live.contains(moder) && world.live.contains(entity) {
        let before = world.kinds[kind as int];
        let linked = once.kinds[kind as int];
        lemma_with_partner(before.first, moder, entity);
        lemma_with_partner(before.second, entity, moder);
        assert(linked.first[moder].insert(entity) =~= linked.first[moder]);
        assert(linked.second[entity].insert(moder) =~= linked.second[entity]);
        assert(linked.link(moder, entity).first =~= linked.first);
        assert(linked.link(moder, entity).second =~= linked.second);
        assert(twice.kinds =~= once.kinds);
    }
}

/// The world after the same link has been applied a number of times.
pub open spec fn linked_times(
    world: WorldView,
    kind: usize,
    moder: u64,
    entity: u64,
    times: nat,
) -> WorldView
    decreases times,
{
    if times == 0 {
        world
    } else {
        linked_times(world, kind, moder, entity, (times - 1) as nat).link(kind, moder, entity)
    }
}

/// Repeating the same link any number of times comes to the same as linking
/// once.
pub proof fn repeated_link_is_one_link(
    world: WorldView,
    kind: usize,
    moder: u64,
    entity: u64,
    times: nat,
)
    requires
        times >= 1,
    ensures
        linked_times(world, kind, moder, entity, times) == world.link(kind, moder, entity),
    decreases times,
{
    if times == 1 {
        assert(linked_times(world, kind, moder, entity, 0) == world);
    } else {
        repeated_link_is_one_link(world, kind, moder, entity, (times - 1) as nat);
        link_is_idempotent(world, kind, moder, entity);
    }
}

/// Enqueueing the same link twice in a row comes to the same as enqueueing
/// it once.
pub proof fn link_queued_twice_is_queued_once(
    world: WorldView,
    kind: usize,
    moder: u64,
    entity: u64,
)
    ensures
        ({
            let link = CommandView::Link { kind, moder, entity };
            world.with_queue(world.queue.push(link).push(link)).settled() == world.with_queue(
                world.queue.push(link),
            ).settled()
        }),
{
    let link = CommandView::Link { kind, moder, entity };
    let once = world.with_queue(world.queue.push(link));
    let twice = world.with_queue(world.queue.push(link).push(link));
    let relations = world.relations();
    assert(once.relations() == relations);
    assert(twice.relations() == relations);
    lemma_run_all_push(relations, world.queue, link);
    lemma_run_all_push(relations, world.queue.push(link), link);
    let before = relations.run_all(world.queue);
    let linked = before.link(kind, moder, entity);
    if kind < before.edges.len() && before.live.contains(moder) && before.live.contains(entity) {
        assert(linked.edges[kind as int].insert((moder, entity)) =~= linked.edges[kind as int]);
        assert(linked.link(kind, moder, entity).edges =~= linked.edges);
    }
}

impl Relations {
    /// Whether no pair with `entity` is related.
    pub open spec fn free_of(self, entity: u64) -> bool {
        forall|kind: int, pair: (u64, u64)|
            0 <= kind < self.edges.len() && #[trigger] self.edges[kind].contains(pair)
                ==> pair.0 != entity && pair.1 != entity
    }
}

/// Whether the command is a link with `entity` as one of its pair.
pub open spec fn links(command: CommandView, entity: u64) -> bool {
    command matches CommandView::Link { moder, entity: other, .. } && (moder == entity || other
        == entity)
}

/// An entity that is not related stays so through a queue of commands, if
/// it does not live or no link in the queue names it.
pub proof fn lemma_stays_free(relations: Relations, queue: Seq<CommandView>, entity: u64)
    requires
        relations.free_of(entity),
        !relations.live.contains(entity) || forall|i: int|
            0 <= i < queue.len() ==> !links(#[trigger] queue[i], entity),
    ensures
        relations.run_all(queue).free_of(entity),
        !relations.live.contains(entity) ==> !relations.run_all(queue).live.contains(entity),
    decreases queue.len(),
{
    if queue.len() > 0 {
        let next = relations.run(queue[0]);
        assert(!links(queue[0], entity) || !relations.live.contains(entity));
        assert forall|kind: int, pair: (u64, u64)|
            0 <= kind < next.edges.len() && #[trigger] next.edges[kind].contains(
                pair,
            ) implies pair.0 != entity && pair.1 != entity by {
            match queue[0] {
                CommandView::Link { kind: k, moder, entity: other } => {
                    if !(kind == k && pair == (moder, other)) {
                        assert(relations.edges[kind].contains(pair));
                    }
                },
                CommandView::Unlink { .. } => {
                    assert(relations.edges[kind].contains(pair));
                },
                CommandView::Despawn { .. } => {
                    assert(relations.edges[kind].contains(pair));
                },
            }
        }
        assert forall|i: int| 0 <= i < queue.drop_first().len() implies #[trigger] queue.drop_first()[i]
            == queue[i + 1] by {}
        lemma_stays_free(next, queue.drop_first(), entity);
    }
}

/// What is not related is named by no record of the settled world.
proof fn lemma_free_is_unnamed(world: WorldView, entity: u64)
    requires
        world.relations().run_all(world.queue).free_of(entity),
    ensures
        world.settled().unnamed(entity),
{
    let relations = world.relations().run_all(world.queue);
    let settled = world.settled();
    assert forall|role: Role, owner: u64| !#[trigger] holds(
        settled.records(role),
        owner,
        entity,
    ) by {
        if role.kind < settled.kinds.len() {
            let pairs = relations.edges[role.kind as int];
            assert(settled.kinds[role.kind as int] == KindView::of_relation(pairs));
            match role.side {
                Side::First => {
                    if holds(settled.records(role), owner, entity) {
                        assert(pairs.contains((owner, entity)));
                    }
                },
                Side::Second => {
                    if holds(settled.records(role), owner, entity) {
                        assert(pairs.contains((entity, owner)));
                    }
                },
            }
        }
    }
}

/// After an entity has been destroyed and the queue drained, the entity does
/// not live and no record names it.
pub proof fn destroyed_entity_is_unnamed(world: WorldView, entity: u64, destroyed: WorldView)
    requires
        world.inv(),
        world.despawns_to(entity, destroyed),
    ensures
        !destroyed.settled().live.contains(entity),
        destroyed.settled().unnamed(entity),
{
    let tail = destroyed.queue.skip(world.queue.len() as int);
    lemma_despawn_relations(world, entity, tail);
    let relations = destroyed.relations();
    assert(relations.free_of(entity));
    lemma_stays_free(relations, destroyed.queue, entity);
    lemma_free_is_unnamed(destroyed, entity);
}

/// The same for an entity that goes on living: after all its records have
/// been removed and the queue drained, no record names it, unless a link
/// that names it was waiting in the queue.
pub proof fn cleared_entity_is_unnamed(world: WorldView, entity: u64, cleared: WorldView)
    requires
        world.inv(),
        world.forgets(entity, cleared),
        forall|i: int| 0 <= i < world.queue.len() ==> !links(#[trigger] world.queue[i], entity),
    ensures
        cleared.settled().unnamed(entity),
{
    let relations = cleared.relations();
    assert forall|kind: int, pair: (u64, u64)|
        0 <= kind < relations.edges.len() && #[trigger] relations.edges[kind].contains(
            pair,
        ) implies pair.0 != entity && pair.1 != entity by {
        assert(cleared.kinds[kind] == world.kinds[kind].forget(entity));
        assert(cleared.kinds[kind].related(pair.0, pair.1));
    }
    let tail = cleared.queue.skip(world.queue.len() as int);
    tail.to_multiset_ensures();
    assert forall|i: int| 0 <= i < cleared.queue.len() implies !links(
        #[trigger] cleared.queue[i],
        entity,
    ) by {
        if i < world.queue.len() {
            assert(cleared.queue[i] == world.queue[i]);
        } else {
            let command = cleared.queue[i];
            assert(tail[i - world.queue.len()] == command);
            assert(tail.contains(command));
            assert(tail.to_multiset().count(command) > 0);
        }
    }
    lemma_stays_free(relations, cleared.queue, entity);
    lemma_free_is_unnamed(cleared, entity);
}

/// A record that an entity holds names at least one partner.
pub proof fn stored_record_is_not_empty(world: WorldView, role: Role, owner: u64)
    requires
        world.inv(),
        world.records(role).dom().contains(owner),
    ensures
        exists|partner: u64| holds(world.records(role), owner, partner),
{
    let kind = world.kinds[role.kind as int];
    assert(kind.inv(world.live));
    let record = world.records(role)[owner];
    assert(!(record =~= Set::<u64>::empty()));
    let partner = choose|partner: u64| record.contains(partner);
    assert(holds(world.records(role), owner, partner));
}

/// Whether `run` is a run of steps: each world has a command waiting and
/// steps to the next.
pub open spec fn is_run(run: Seq<WorldView>) -> bool {
    forall|i: int|
        0 <= i < run.len() - 1 ==> (#[trigger] run[i]).queue.len() > 0 && run[i].steps_to(
            run[i + 1],
        )
}

/// A run of steps from a world that is in order is no longer than the bound
/// of that world: the commands that wait, twice the links among them, and the
/// pairs that the records hold.
pub proof fn run_of_steps_is_bounded(run: Seq<WorldView>)
    requires
        run.len() >= 1,
        run[0].inv(),
        is_run(run),
    ensures
        run.len() - 1 + run.last().drain_bound() <= run[0].drain_bound(),
        run.last().inv(),
    decreases run.len(),
{
    if run.len() > 1 {
        let shorter = run.drop_last();
        assert forall|i: int| 0 <= i < shorter.len() - 1 implies (#[trigger] shorter[i]).queue.len()
            > 0 && shorter[i].steps_to(shorter[i + 1]) by {
            assert(shorter[i] == run[i]);
            assert(shorter[i + 1] == run[i + 1]);
        }
        run_of_steps_is_bounded(shorter);
        let before = run[run.len() - 2];
        assert(shorter.last() == before);
        assert(before.steps_to(run[run.len() - 2 + 1]));
        lemma_step_bound(before, run.last());
        lemma_steps_to_inv(before, run.last());
    }
}

} // verus!

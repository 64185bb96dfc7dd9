//! Why the world stays in order: each operation keeps the invariant of the
//! model, and a pending unlink covers every half of a relation whose other
//! half is gone.

use crate::bound::lemma_clear_size;
use crate::entity::valid_bits;
use crate::model::{
    half_edges, is_cascade, lemma_with_partner, lemma_without_partner, partners_of, CommandView,
    KindView, WorldView,
};
use crate::role::{Role, Side};
use vstd::prelude::*;

verus! {

/// Linking keeps the world's invariant.
pub proof fn lemma_link_inv(world: WorldView, kind: usize, moder: u64, entity: u64)
    requires
        world.inv(),
    ensures
        world.link(kind, moder, entity).inv(),
{
    let after = world.link(kind, moder, entity);
    if kind < world.kinds.len() && world.live.contains(moder) && world.live.contains(entity) {
        let before_kind = world.kinds[kind as int];
        lemma_with_partner(before_kind.first, moder, entity);
        lemma_with_partner(before_kind.second, entity, moder);
        assert(before_kind.inv(world.live));
        assert forall|k: int| 0 <= k < after.kinds.len() implies (#[trigger] after.kinds[k]).inv(
            after.live,
        ) by {
            if k != kind {
                assert(after.kinds[k] == world.kinds[k]);
            }
        }
        assert forall|k: usize, a: u64, b: u64|
            k < after.kinds.len() && #[trigger] after.kinds[k as int].forward(a, b)
                && !after.kinds[k as int].backward(a, b) implies after.queue.contains(
            CommandView::Unlink { kind: k, moder: a, entity: b },
        ) by {
            assert(world.kinds[k as int].forward(a, b));
        }
        assert forall|k: usize, a: u64, b: u64|
            k < after.kinds.len() && #[trigger] after.kinds[k as int].backward(a, b)
                && !after.kinds[k as int].forward(a, b) implies after.queue.contains(
            CommandView::Unlink { kind: k, moder: a, entity: b },
        ) by {
            assert(world.kinds[k as int].backward(a, b));
        }
    }
}

/// Unlinking keeps the world's invariant.
pub proof fn lemma_unlink_inv(world: WorldView, kind: usize, moder: u64, entity: u64)
    requires
        world.inv(),
    ensures
        world.unlink(kind, moder, entity).inv(),
{
    let after = world.unlink(kind, moder, entity);
    if kind < world.kinds.len() {
        let before_kind = world.kinds[kind as int];
        lemma_without_partner(before_kind.first, moder, entity);
        lemma_without_partner(before_kind.second, entity, moder);
        assert(before_kind.inv(world.live));
        assert forall|k: int| 0 <= k < after.kinds.len() implies (#[trigger] after.kinds[k]).inv(
            after.live,
        ) by {
            if k != kind {
                assert(after.kinds[k] == world.kinds[k]);
            }
        }
        assert forall|k: usize, a: u64, b: u64|
            k < after.kinds.len() && #[trigger] after.kinds[k as int].forward(a, b)
                && !after.kinds[k as int].backward(a, b) implies after.queue.contains(
            CommandView::Unlink { kind: k, moder: a, entity: b },
        ) by {
            assert(world.kinds[k as int].forward(a, b));
        }
        assert forall|k: usize, a: u64, b: u64|
            k < after.kinds.len() && #[trigger] after.kinds[k as int].backward(a, b)
                && !after.kinds[k as int].forward(a, b) implies after.queue.contains(
            CommandView::Unlink { kind: k, moder: a, entity: b },
        ) by {
            assert(world.kinds[k as int].backward(a, b));
        }
    }
}

/// Whether the command has done its work on the world, so that no half of a
/// relation needs it in the queue any more.
pub open spec fn spent(world: WorldView, command: CommandView) -> bool {
    match command {
        CommandView::Unlink { kind, moder, entity } => kind < world.kinds.len() ==> {
            &&& !world.kinds[kind as int].forward(moder, entity)
            &&& !world.kinds[kind as int].backward(moder, entity)
        },
        _ => true,
    }
}

/// Taking a spent command from the head of the queue keeps the invariant.
pub proof fn lemma_pop_inv(world: WorldView)
    requires
        world.inv(),
        world.queue.len() > 0,
        spent(world, world.queue[0]),
    ensures
        world.with_queue(world.queue.drop_first()).inv(),
{
    let after = world.with_queue(world.queue.drop_first());
    let rest = world.queue.drop_first();
    assert forall|c: CommandView| world.queue.contains(c) && c != world.queue[0] implies rest.contains(
        c,
    ) by {
        let i = choose|i: int| 0 <= i < world.queue.len() && world.queue[i] == c;
        assert(rest[i - 1] == c);
    }
    assert forall|k: int| 0 <= k < after.kinds.len() implies (#[trigger] after.kinds[k]).inv(
        after.live,
    ) by {
        assert(after.kinds[k] == world.kinds[k]);
    }
    assert forall|k: usize, a: u64, b: u64|
        k < after.kinds.len() && #[trigger] after.kinds[k as int].forward(a, b)
            && !after.kinds[k as int].backward(a, b) implies after.queue.contains(
        CommandView::Unlink { kind: k, moder: a, entity: b },
    ) by {
        assert(world.kinds[k as int].forward(a, b));
    }
    assert forall|k: usize, a: u64, b: u64|
        k < after.kinds.len() && #[trigger] after.kinds[k as int].backward(a, b)
            && !after.kinds[k as int].forward(a, b) implies after.queue.contains(
        CommandView::Unlink { kind: k, moder: a, entity: b },
    ) by {
        assert(world.kinds[k as int].backward(a, b));
    }
}

/// Adding commands at the end of the queue keeps the invariant.
pub proof fn lemma_enqueue_inv(world: WorldView, queue: Seq<CommandView>)
    requires
        world.inv(),
        world.queue.is_prefix_of(queue),
    ensures
        world.with_queue(queue).inv(),
{
    let after = world.with_queue(queue);
    assert forall|c: CommandView| world.queue.contains(c) implies queue.contains(c) by {
        let i = choose|i: int| 0 <= i < world.queue.len() && world.queue[i] == c;
        assert(queue[i] == c);
    }
    assert forall|k: int| 0 <= k < after.kinds.len() implies (#[trigger] after.kinds[k]).inv(
        after.live,
    ) by {
        assert(after.kinds[k] == world.kinds[k]);
    }
    assert forall|k: usize, a: u64, b: u64|
        k < after.kinds.len() && #[trigger] after.kinds[k as int].forward(a, b)
            && !after.kinds[k as int].backward(a, b) implies after.queue.contains(
        CommandView::Unlink { kind: k, moder: a, entity: b },
    ) by {
        assert(world.kinds[k as int].forward(a, b));
    }
    assert forall|k: usize, a: u64, b: u64|
        k < after.kinds.len() && #[trigger] after.kinds[k as int].backward(a, b)
            && !after.kinds[k as int].forward(a, b) implies after.queue.contains(
        CommandView::Unlink { kind: k, moder: a, entity: b },
    ) by {
        assert(world.kinds[k as int].backward(a, b));
    }
}

/// Declaring a relation kind keeps the invariant.
pub proof fn lemma_register_inv(world: WorldView)
    requires
        world.inv(),
        world.kinds.len() < usize::MAX,
    ensures
        (WorldView { kinds: world.kinds.push(KindView::empty()), ..world }).inv(),
{
    let after = WorldView { kinds: world.kinds.push(KindView::empty()), ..world };
    assert(half_edges(KindView::empty().first) =~= Set::<(u64, u64)>::empty());
    assert(half_edges(KindView::empty().second) =~= Set::<(u64, u64)>::empty());
    assert forall|k: int| 0 <= k < after.kinds.len() implies (#[trigger] after.kinds[k]).inv(
        after.live,
    ) by {
        if k < world.kinds.len() {
            assert(after.kinds[k] == world.kinds[k]);
        }
    }
    assert forall|k: usize, a: u64, b: u64|
        k < after.kinds.len() && #[trigger] after.kinds[k as int].forward(a, b)
            && !after.kinds[k as int].backward(a, b) implies after.queue.contains(
        CommandView::Unlink { kind: k, moder: a, entity: b },
    ) by {
        assert(world.kinds[k as int].forward(a, b));
    }
    assert forall|k: usize, a: u64, b: u64|
        k < after.kinds.len() && #[trigger] after.kinds[k as int].backward(a, b)
            && !after.kinds[k as int].forward(a, b) implies after.queue.contains(
        CommandView::Unlink { kind: k, moder: a, entity: b },
    ) by {
        assert(world.kinds[k as int].backward(a, b));
    }
}

/// Making an entity live keeps the invariant.
pub proof fn lemma_spawn_inv(world: WorldView, entity: u64)
    requires
        world.inv(),
        valid_bits(entity),
    ensures
        (WorldView { live: world.live.insert(entity), ..world }).inv(),
{
    let after = WorldView { live: world.live.insert(entity), ..world };
    assert forall|k: int| 0 <= k < after.kinds.len() implies (#[trigger] after.kinds[k]).inv(
        after.live,
    ) by {
        assert(world.kinds[k].inv(world.live));
    }
}

/// Whatever stands in a queue stands in the queue with more at its end.
pub proof fn lemma_contains_extended(queue: Seq<CommandView>, tail: Seq<CommandView>)
    ensures
        forall|c: CommandView| #[trigger] queue.contains(c) ==> (queue + tail).contains(c),
        forall|c: CommandView| #[trigger] tail.contains(c) ==> (queue + tail).contains(c),
{
    assert forall|c: CommandView| #[trigger] queue.contains(c) implies (queue + tail).contains(
        c,
    ) by {
        let i = choose|i: int| 0 <= i < queue.len() && queue[i] == c;
        assert((queue + tail)[i] == c);
    }
    assert forall|c: CommandView| #[trigger] tail.contains(c) implies (queue + tail).contains(
        c,
    ) by {
        let i = choose|i: int| 0 <= i < tail.len() && tail[i] == c;
        assert((queue + tail)[queue.len() + i] == c);
    }
}

/// Removing a record with its cascade keeps the invariant.
pub proof fn lemma_clear_inv(world: WorldView, role: Role, owner: u64, tail: Seq<CommandView>)
    requires
        world.inv(),
        is_cascade(tail, role, owner, partners_of(world.records(role), owner)),
    ensures
        world.clear(role, owner, tail).inv(),
{
    let after = world.clear(role, owner, tail);
    lemma_contains_extended(world.queue, tail);
    if role.kind < world.kinds.len() {
        let before_kind = world.kinds[role.kind as int];
        let after_kind = after.kinds[role.kind as int];
        assert(before_kind.inv(world.live));
        assert(half_edges(after_kind.first).subset_of(half_edges(before_kind.first)));
        assert(half_edges(after_kind.second).subset_of(half_edges(before_kind.second)));
        vstd::set_lib::lemma_set_subset_finite(
            half_edges(before_kind.first),
            half_edges(after_kind.first),
        );
        vstd::set_lib::lemma_set_subset_finite(
            half_edges(before_kind.second),
            half_edges(after_kind.second),
        );
        assert forall|k: int| 0 <= k < after.kinds.len() implies (#[trigger] after.kinds[k]).inv(
            after.live,
        ) by {
            if k != role.kind {
                assert(after.kinds[k] == world.kinds[k]);
            }
        }
        assert forall|k: usize, a: u64, b: u64|
            k < after.kinds.len() && #[trigger] after.kinds[k as int].forward(a, b)
                && !after.kinds[k as int].backward(a, b) implies after.queue.contains(
            CommandView::Unlink { kind: k, moder: a, entity: b },
        ) by {
            let c = CommandView::Unlink { kind: k, moder: a, entity: b };
            assert(world.kinds[k as int].forward(a, b));
            if world.kinds[k as int].backward(a, b) {
                assert(role.unlinked_partner(owner, c) == Some(a));
                assert(tail.contains(c));
            } else {
                assert(world.queue.contains(c));
            }
        }
        assert forall|k: usize, a: u64, b: u64|
            k < after.kinds.len() && #[trigger] after.kinds[k as int].backward(a, b)
                && !after.kinds[k as int].forward(a, b) implies after.queue.contains(
            CommandView::Unlink { kind: k, moder: a, entity: b },
        ) by {
            let c = CommandView::Unlink { kind: k, moder: a, entity: b };
            assert(world.kinds[k as int].backward(a, b));
            if world.kinds[k as int].forward(a, b) {
                assert(role.unlinked_partner(owner, c) == Some(b));
                assert(tail.contains(c));
            } else {
                assert(world.queue.contains(c));
            }
        }
    } else {
        lemma_enqueue_inv(world, world.queue + tail);
    }
}

/// In a cascade each command stands once.
pub proof fn lemma_cascade_count(
    tail: Seq<CommandView>,
    role: Role,
    owner: u64,
    partners: Set<u64>,
)
    requires
        is_cascade(tail, role, owner, partners),
    ensures
        forall|command: CommandView|
            (#[trigger] tail.to_multiset().count(command)) == (if (role.unlinked_partner(
                owner,
                command,
            ) matches Some(partner) && partners.contains(partner)) {
                1nat
            } else {
                0nat
            }),
{
    tail.lemma_multiset_has_no_duplicates();
    tail.to_multiset_ensures();
    assert forall|command: CommandView|
        (#[trigger] tail.to_multiset().count(command)) == (if (role.unlinked_partner(
            owner,
            command,
        ) matches Some(partner) && partners.contains(partner)) {
            1nat
        } else {
            0nat
        }) by {
        if tail.contains(command) {
            assert(tail.to_multiset().count(command) > 0);
            assert(tail.to_multiset().contains(command));
        } else {
            assert(!(tail.to_multiset().count(command) > 0));
        }
    }
}

/// Destroying an entity, one kind at a time: the records of both roles of
/// the next kind are removed, each with its cascade.
pub proof fn lemma_forgets_step(
    start: WorldView,
    entity: u64,
    kind: usize,
    before: WorldView,
    between: WorldView,
    after: WorldView,
)
    requires
        kind < start.kinds.len(),
        before.inv(),
        between.inv(),
        start.forgets_below(entity, kind as int, before),
        before.clears_to(Role { kind, side: Side::First }, entity, between),
        between.clears_to(Role { kind, side: Side::Second }, entity, after),
    ensures
        start.forgets_below(entity, kind + 1, after),
{
    lemma_clear_size(
        before,
        Role { kind, side: Side::First },
        entity,
        between.queue.skip(before.queue.len() as int),
    );
    lemma_clear_size(
        between,
        Role { kind, side: Side::Second },
        entity,
        after.queue.skip(between.queue.len() as int),
    );
    let first = Role { kind, side: Side::First };
    let second = Role { kind, side: Side::Second };
    let done = before.queue.skip(start.queue.len() as int);
    let one = between.queue.skip(before.queue.len() as int);
    let two = after.queue.skip(between.queue.len() as int);
    let tail = after.queue.skip(start.queue.len() as int);
    assert(between.queue =~= before.queue + one);
    assert(after.queue =~= between.queue + two);
    assert(tail =~= (done + one) + two);
    vstd::seq_lib::lemma_multiset_commutative(done, one);
    vstd::seq_lib::lemma_multiset_commutative(done + one, two);
    lemma_cascade_count(one, first, entity, partners_of(before.records(first), entity));
    lemma_cascade_count(two, second, entity, partners_of(between.records(second), entity));
    assert(before.kinds[kind as int] == start.kinds[kind as int]);
    assert(between.kinds[kind as int].second == start.kinds[kind as int].second);
    assert forall|k: int| 0 <= k < start.kinds.len() implies #[trigger] after.kinds[k] == if k
        < kind + 1 {
        start.kinds[k].forget(entity)
    } else {
        start.kinds[k]
    } by {
        if k != kind {
            assert(between.kinds[k] == before.kinds[k]);
            assert(after.kinds[k] == between.kinds[k]);
        }
    }
    assert forall|command: CommandView|
        (#[trigger] tail.to_multiset().count(command)) == start.cascade_count_below(
            entity,
            command,
            kind + 1,
        ) by {
        assert(tail.to_multiset().count(command) == done.to_multiset().count(command)
            + one.to_multiset().count(command) + two.to_multiset().count(command));
    }
}

/// Destroying an entity, the last step: with all its records removed, the
/// entity stops living.
pub proof fn lemma_forgets_all(start: WorldView, entity: u64, before: WorldView)
    requires
        before.inv(),
        start.forgets_below(entity, start.kinds.len() as int, before),
    ensures
        start.despawns_to(entity, WorldView { live: before.live.remove(entity), ..before }),
        (WorldView { live: before.live.remove(entity), ..before }).inv(),
{
    let after = WorldView { live: before.live.remove(entity), ..before };
    let tail = after.queue.skip(start.queue.len() as int);
    assert(after.queue =~= start.queue + tail);
    assert(after.kinds =~= start.despawn(entity, tail).kinds);
    assert forall|k: int| 0 <= k < after.kinds.len() implies (#[trigger] after.kinds[k]).inv(
        after.live,
    ) by {
        assert(before.kinds[k].inv(before.live));
        assert(before.kinds[k] == start.kinds[k].forget(entity));
    }
}

/// Every command of the cascade for a destroyed entity is an unlink of a
/// pair that the entity is one of.
pub proof fn lemma_despawn_tail(world: WorldView, entity: u64, after: WorldView)
    requires
        world.despawns_to(entity, after),
    ensures
        forall|i: int|
            0 <= i < after.queue.len() - world.queue.len() ==> (
            #[trigger] after.queue[world.queue.len() + i] matches CommandView::Unlink {
                moder,
                entity: other,
                ..
            } && (moder == entity || other == entity)),
{
    let tail = after.queue.skip(world.queue.len() as int);
    tail.to_multiset_ensures();
    assert forall|i: int| 0 <= i < after.queue.len() - world.queue.len() implies (
    #[trigger] after.queue[world.queue.len() + i] matches CommandView::Unlink {
        moder,
        entity: other,
        ..
    } && (moder == entity || other == entity)) by {
        let command = after.queue[world.queue.len() + i];
        assert(tail[i] == command);
        assert(tail.contains(command));
        assert(tail.to_multiset().count(command) > 0);
        assert(world.cascade_count(entity, command) > 0);
    }
}

/// A step keeps the invariant.
pub proof fn lemma_step_inv(world: WorldView, applied: WorldView)
    requires
        world.inv(),
        world.queue.len() > 0,
        applied.inv(),
        applied.queue.len() > 0,
        applied.queue[0] == world.queue[0],
        match world.queue[0] {
            CommandView::Link { kind, moder, entity } => applied == world.link(kind, moder, entity),
            CommandView::Unlink { kind, moder, entity } => applied == world.unlink(
                kind,
                moder,
                entity,
            ),
            CommandView::Despawn { entity } => world.despawns_to(entity, applied),
        },
    ensures
        applied.with_queue(applied.queue.drop_first()).inv(),
        world.steps_to(applied.with_queue(applied.queue.drop_first())),
{
    let after = applied.with_queue(applied.queue.drop_first());
    let rest = world.with_queue(world.queue.drop_first());
    match world.queue[0] {
        CommandView::Link { kind, moder, entity } => {},
        CommandView::Unlink { kind, moder, entity } => {
            if kind < world.kinds.len() {
                lemma_without_partner(world.kinds[kind as int].first, moder, entity);
                lemma_without_partner(world.kinds[kind as int].second, entity, moder);
            }
        },
        CommandView::Despawn { entity } => {
            let tail = applied.queue.skip(world.queue.len() as int);
            assert(applied.queue =~= world.queue + tail);
            assert(after.queue =~= rest.queue + tail);
            assert(after.queue.skip(rest.queue.len() as int) =~= tail);
            assert(rest.size() == world.size());
            assert forall|command: CommandView|
                rest.cascade_count(entity, command) == world.cascade_count(entity, command) by {}
            assert(after == rest.despawn(entity, tail));
        },
    }
    lemma_pop_inv(applied);
}

/// Destroying an entity, with the cascades for its records enqueued, keeps
/// the invariant.
pub proof fn lemma_despawn_inv(world: WorldView, entity: u64, tail: Seq<CommandView>)
    requires
        world.inv(),
        forall|command: CommandView|
            (#[trigger] tail.to_multiset().count(command)) == world.cascade_count(entity, command),
    ensures
        world.despawn(entity, tail).inv(),
{
    let after = world.despawn(entity, tail);
    lemma_contains_extended(world.queue, tail);
    tail.to_multiset_ensures();
    assert forall|k: int| 0 <= k < after.kinds.len() implies (#[trigger] after.kinds[k]).inv(
        after.live,
    ) by {
        let before_kind = world.kinds[k];
        let after_kind = after.kinds[k];
        assert(before_kind.inv(world.live));
        assert(after_kind == before_kind.forget(entity));
        assert(half_edges(after_kind.first).subset_of(half_edges(before_kind.first)));
        assert(half_edges(after_kind.second).subset_of(half_edges(before_kind.second)));
        vstd::set_lib::lemma_set_subset_finite(
            half_edges(before_kind.first),
            half_edges(after_kind.first),
        );
        vstd::set_lib::lemma_set_subset_finite(
            half_edges(before_kind.second),
            half_edges(after_kind.second),
        );
    }
    assert forall|k: usize, a: u64, b: u64|
        k < after.kinds.len() && #[trigger] after.kinds[k as int].forward(a, b)
            && !after.kinds[k as int].backward(a, b) implies after.queue.contains(
        CommandView::Unlink { kind: k, moder: a, entity: b },
    ) by {
        let c = CommandView::Unlink { kind: k, moder: a, entity: b };
        assert(after.kinds[k as int] == world.kinds[k as int].forget(entity));
        assert(world.kinds[k as int].forward(a, b));
        if world.kinds[k as int].backward(a, b) {
            assert(world.cascade_count(entity, c) > 0);
            assert(tail.to_multiset().count(c) > 0);
            assert(tail.contains(c));
        } else {
            assert(world.queue.contains(c));
        }
    }
    assert forall|k: usize, a: u64, b: u64|
        k < after.kinds.len() && #[trigger] after.kinds[k as int].backward(a, b)
            && !after.kinds[k as int].forward(a, b) implies after.queue.contains(
        CommandView::Unlink { kind: k, moder: a, entity: b },
    ) by {
        let c = CommandView::Unlink { kind: k, moder: a, entity: b };
        assert(after.kinds[k as int] == world.kinds[k as int].forget(entity));
        assert(world.kinds[k as int].backward(a, b));
        if world.kinds[k as int].forward(a, b) {
            assert(world.cascade_count(entity, c) > 0);
            assert(tail.to_multiset().count(c) > 0);
            assert(tail.contains(c));
        } else {
            assert(world.queue.contains(c));
        }
    }
}

/// A step leads from a world that is in order to one that is in order.
pub proof fn lemma_steps_to_inv(world: WorldView, after: WorldView)
    requires
        world.inv(),
        world.steps_to(after),
    ensures
        after.inv(),
{
    if world.queue.len() > 0 {
        let rest = world.with_queue(world.queue.drop_first());
        match world.queue[0] {
            CommandView::Link { kind, moder, entity } => {
                let applied = world.link(kind, moder, entity);
                lemma_link_inv(world, kind, moder, entity);
                lemma_step_inv(world, applied);
            },
            CommandView::Unlink { kind, moder, entity } => {
                let applied = world.unlink(kind, moder, entity);
                lemma_unlink_inv(world, kind, moder, entity);
                lemma_step_inv(world, applied);
            },
            CommandView::Despawn { entity } => {
                let tail = after.queue.skip(rest.queue.len() as int);
                let applied = world.despawn(entity, tail);
                assert forall|command: CommandView|
                    rest.cascade_count(entity, command) == world.cascade_count(
                        entity,
                        command,
                    ) by {}
                lemma_despawn_inv(world, entity, tail);
                assert(applied.queue.skip(world.queue.len() as int) =~= tail);
                assert(world.queue.is_prefix_of(applied.queue));
                assert(applied.kinds == after.kinds);
                assert(world.despawns_to(entity, applied));
                lemma_step_inv(world, applied);
                assert(after.queue =~= rest.queue + tail);
                assert(applied.queue.drop_first() =~= after.queue);
            },
        }
    }
}

} // verus!

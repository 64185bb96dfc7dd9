//! What a queue of commands comes to. Apart from how the records store it, a
//! world relates pairs of entities; each command changes which pairs are
//! related, and draining the queue applies the commands in order. The unlinks
//! that cascades add on the way change nothing that the commands have not
//! settled already.

use crate::model::{lemma_with_partner, lemma_without_partner, CommandView, KindView, WorldView};
use crate::preserve::lemma_despawn_tail;
use vstd::prelude::*;

verus! {

/// The entities that live and, for each relation kind, the pairs of moder and
/// entity that are related.
pub struct Relations {
    /// The bit patterns of the entities that live.
    pub live: Set<u64>,
    /// The related pairs of each kind.
    pub edges: Seq<Set<(u64, u64)>>,
}

impl Relations {
    /// After a link: the pair is related, if the kind is known and both live.
    pub open spec fn link(self, kind: usize, moder: u64, entity: u64) -> Relations {
        if kind < self.edges.len() && self.live.contains(moder) && self.live.contains(entity) {
            Relations {
                edges: self.edges.update(
                    kind as int,
                    self.edges[kind as int].insert((moder, entity)),
                ),
                ..self
            }
        } else {
            self
        }
    }

    /// After an unlink: the pair is not related.
    pub open spec fn unlink(self, kind: usize, moder: u64, entity: u64) -> Relations {
        if kind < self.edges.len() {
            Relations {
                edges: self.edges.update(
                    kind as int,
                    self.edges[kind as int].remove((moder, entity)),
                ),
                ..self
            }
        } else {
            self
        }
    }

    /// After the entity has been destroyed: it does not live, and no pair
    /// with it is related.
    pub open spec fn despawn(self, entity: u64) -> Relations {
        Relations {
            live: self.live.remove(entity),
            edges: self.edges.map_values(
                |pairs: Set<(u64, u64)>|
                    pairs.filter(|pair: (u64, u64)| pair.0 != entity && pair.1 != entity),
            ),
        }
    }

    /// After one command.
    pub open spec fn run(self, command: CommandView) -> Relations {
        match command {
            CommandView::Link { kind, moder, entity } => self.link(kind, moder, entity),
            CommandView::Unlink { kind, moder, entity } => self.unlink(kind, moder, entity),
            CommandView::Despawn { entity } => self.despawn(entity),
        }
    }

    /// After the commands of a queue, the first one first.
    pub open spec fn run_all(self, queue: Seq<CommandView>) -> Relations
        decreases queue.len(),
    {
        if queue.len() == 0 {
            self
        } else {
            self.run(queue[0]).run_all(queue.drop_first())
        }
    }

    /// Only entities that live are related.
    pub open spec fn closed(self) -> bool {
        forall|kind: int, pair: (u64, u64)|
            0 <= kind < self.edges.len() && #[trigger] self.edges[kind].contains(pair)
                ==> self.live.contains(pair.0) && self.live.contains(pair.1)
    }

    /// Whether the command is an unlink of a pair of which one does not live.
    pub open spec fn unlinks_dead(self, command: CommandView) -> bool {
        command matches CommandView::Unlink { kind, moder, entity } && (!self.live.contains(moder)
            || !self.live.contains(entity))
    }
}

impl KindView {
    /// The pairs that are related under the kind.
    pub open spec fn relation(self) -> Set<(u64, u64)> {
        Set::new(|pair: (u64, u64)| self.related(pair.0, pair.1))
    }

    /// The records that store exactly the given pairs: each moder names its
    /// entities, each entity its moders, and nobody holds an empty record.
    pub open spec fn of_relation(pairs: Set<(u64, u64)>) -> KindView {
        KindView {
            first: Map::new(
                |moder: u64| exists|entity: u64| pairs.contains((moder, entity)),
                |moder: u64| Set::new(|entity: u64| pairs.contains((moder, entity))),
            ),
            second: Map::new(
                |entity: u64| exists|moder: u64| pairs.contains((moder, entity)),
                |entity: u64| Set::new(|moder: u64| pairs.contains((moder, entity))),
            ),
        }
    }
}

impl WorldView {
    /// What the world relates.
    pub open spec fn relations(self) -> Relations {
        Relations { live: self.live, edges: self.kinds.map_values(|kind: KindView| kind.relation()) }
    }

    /// The world after its queue has been drained: the commands have been
    /// applied in order to what was related, the records store exactly what
    /// is then related, and nothing waits.
    pub open spec fn settled(self) -> WorldView {
        let relations = self.relations().run_all(self.queue);
        WorldView {
            live: relations.live,
            kinds: relations.edges.map_values(|pairs: Set<(u64, u64)>| KindView::of_relation(pairs)),
            queue: Seq::empty(),
        }
    }
}

/// What a link does to the records is what it does to the relation.
pub proof fn lemma_link_relations(world: WorldView, kind: usize, moder: u64, entity: u64)
    ensures
        world.link(kind, moder, entity).relations() == world.relations().link(kind, moder, entity),
{
    let after = world.link(kind, moder, entity).relations();
    let model = world.relations().link(kind, moder, entity);
    if kind < world.kinds.len() && world.live.contains(moder) && world.live.contains(entity) {
        let before_kind = world.kinds[kind as int];
        lemma_with_partner(before_kind.first, moder, entity);
        lemma_with_partner(before_kind.second, entity, moder);
        assert forall|k: int| 0 <= k < after.edges.len() implies after.edges[k] =~= model.edges[k] by {
            if k == kind {
                assert forall|pair: (u64, u64)|
                    after.edges[k].contains(pair) <==> model.edges[k].contains(pair) by {
                    assert(world.kinds[k].relation().contains(pair) == world.kinds[k].related(
                        pair.0,
                        pair.1,
                    ));
                }
            }
        }
        assert(after.edges =~= model.edges);
    }
}

/// What an unlink does to the records is what it does to the relation.
pub proof fn lemma_unlink_relations(world: WorldView, kind: usize, moder: u64, entity: u64)
    ensures
        world.unlink(kind, moder, entity).relations() == world.relations().unlink(
            kind,
            moder,
            entity,
        ),
{
    let after = world.unlink(kind, moder, entity).relations();
    let model = world.relations().unlink(kind, moder, entity);
    if kind < world.kinds.len() {
        let before_kind = world.kinds[kind as int];
        lemma_without_partner(before_kind.first, moder, entity);
        lemma_without_partner(before_kind.second, entity, moder);
        assert forall|k: int| 0 <= k < after.edges.len() implies after.edges[k] =~= model.edges[k] by {
            if k == kind {
                assert forall|pair: (u64, u64)|
                    after.edges[k].contains(pair) <==> model.edges[k].contains(pair) by {
                    assert(world.kinds[k].relation().contains(pair) == world.kinds[k].related(
                        pair.0,
                        pair.1,
                    ));
                }
            }
        }
        assert(after.edges =~= model.edges);
    }
}

/// What destroying an entity does to the records is what it does to the
/// relation, whatever the cascade enqueues.
pub proof fn lemma_despawn_relations(world: WorldView, entity: u64, tail: Seq<CommandView>)
    ensures
        world.despawn(entity, tail).relations() == world.relations().despawn(entity),
{
    let after = world.despawn(entity, tail).relations();
    let model = world.relations().despawn(entity);
    assert forall|k: int| 0 <= k < after.edges.len() implies after.edges[k] =~= model.edges[k] by {
        assert forall|pair: (u64, u64)|
            after.edges[k].contains(pair) <==> model.edges[k].contains(pair) by {
            assert(world.kinds[k].relation().contains(pair) == world.kinds[k].related(
                pair.0,
                pair.1,
            ));
        }
    }
    assert(after.edges =~= model.edges);
}

/// In a world that is in order, only entities that live are related.
pub proof fn lemma_relations_closed(world: WorldView)
    requires
        world.inv(),
    ensures
        world.relations().closed(),
{
    let relations = world.relations();
    assert forall|kind: int, pair: (u64, u64)|
        0 <= kind < relations.edges.len() && #[trigger] relations.edges[kind].contains(
            pair,
        ) implies relations.live.contains(pair.0) && relations.live.contains(pair.1) by {
        assert(world.kinds[kind].inv(world.live));
        assert(world.kinds[kind].related(pair.0, pair.1));
        assert(world.kinds[kind].first.dom().contains(pair.0));
        assert(world.kinds[kind].second.dom().contains(pair.1));
    }
}

/// A command leaves the relation closed, makes nobody live, and keeps the
/// number of kinds.
pub proof fn lemma_run_closed(relations: Relations, command: CommandView)
    requires
        relations.closed(),
    ensures
        relations.run(command).closed(),
        relations.run(command).live.subset_of(relations.live),
        relations.run(command).edges.len() == relations.edges.len(),
{
    let after = relations.run(command);
    assert forall|kind: int, pair: (u64, u64)|
        0 <= kind < after.edges.len() && #[trigger] after.edges[kind].contains(
            pair,
        ) implies after.live.contains(pair.0) && after.live.contains(pair.1) by {
        match command {
            CommandView::Link { kind: k, moder, entity } => {
                if !(pair == (moder, entity) && kind == k) {
                    assert(relations.edges[kind].contains(pair));
                }
            },
            CommandView::Unlink { kind: k, moder, entity } => {
                assert(relations.edges[kind].contains(pair));
            },
            CommandView::Despawn { entity } => {
                assert(relations.edges[kind].contains(pair));
            },
        }
    }
}

/// Running a queue with one more command at its end is running the queue
/// and then the command.
pub proof fn lemma_run_all_push(relations: Relations, queue: Seq<CommandView>, last: CommandView)
    ensures
        relations.run_all(queue.push(last)) == relations.run_all(queue).run(last),
    decreases queue.len(),
{
    let longer = queue.push(last);
    if queue.len() == 0 {
        assert(longer.drop_first() =~= Seq::<CommandView>::empty());
        assert(relations.run(last).run_all(longer.drop_first()) == relations.run(last));
    } else {
        assert(longer[0] == queue[0]);
        assert(longer.drop_first() =~= queue.drop_first().push(last));
        lemma_run_all_push(relations.run(queue[0]), queue.drop_first(), last);
    }
}

/// An unlink of a pair of which one does not live changes nothing, wherever
/// in the queue it stands after the commands before it.
pub proof fn lemma_dead_unlink_last(relations: Relations, queue: Seq<CommandView>, last: CommandView)
    requires
        relations.closed(),
        relations.unlinks_dead(last),
    ensures
        relations.run_all(queue.push(last)) == relations.run_all(queue),
    decreases queue.len(),
{
    let longer = queue.push(last);
    if queue.len() == 0 {
        assert(longer.drop_first() =~= Seq::<CommandView>::empty());
        assert(relations.run(last).run_all(longer.drop_first()) == relations.run(last));
        if let CommandView::Unlink { kind, moder, entity } = last {
            if kind < relations.edges.len() {
                assert(!relations.edges[kind as int].contains((moder, entity)));
                assert(relations.edges[kind as int].remove((moder, entity))
                    =~= relations.edges[kind as int]);
                assert(relations.run(last).edges =~= relations.edges);
            }
        }
    } else {
        assert(longer[0] == queue[0]);
        assert(longer.drop_first() =~= queue.drop_first().push(last));
        lemma_run_closed(relations, queue[0]);
        lemma_dead_unlink_last(relations.run(queue[0]), queue.drop_first(), last);
    }
}

/// Unlinks of pairs of which one does not live, added at the end of a queue,
/// change nothing.
pub proof fn lemma_dead_unlinks_last(
    relations: Relations,
    queue: Seq<CommandView>,
    tail: Seq<CommandView>,
)
    requires
        relations.closed(),
        forall|i: int| 0 <= i < tail.len() ==> relations.unlinks_dead(#[trigger] tail[i]),
    ensures
        relations.run_all(queue + tail) == relations.run_all(queue),
    decreases tail.len(),
{
    if tail.len() == 0 {
        assert(queue + tail =~= queue);
    } else {
        let shorter = tail.drop_last();
        assert(queue + tail =~= (queue + shorter).push(tail.last()));
        lemma_dead_unlink_last(relations, queue + shorter, tail.last());
        assert forall|i: int| 0 <= i < shorter.len() implies relations.unlinks_dead(
            #[trigger] shorter[i],
        ) by {
            assert(shorter[i] == tail[i]);
        }
        lemma_dead_unlinks_last(relations, queue, shorter);
    }
}

/// Once nothing waits, the records store exactly what is related: a world
/// that is in order and has an empty queue is settled.
pub proof fn lemma_settled_fixed(world: WorldView)
    requires
        world.inv(),
        world.queue.len() == 0,
    ensures
        world.settled() == world,
{
    let settled = world.settled();
    assert(world.queue =~= Seq::<CommandView>::empty());
    assert forall|k: int| 0 <= k < world.kinds.len() implies settled.kinds[k] == world.kinds[k] by {
        let kind = world.kinds[k];
        let pairs = kind.relation();
        let stored = KindView::of_relation(pairs);
        assert(kind.inv(world.live));
        assert forall|moder: u64, entity: u64|
            kind.forward(moder, entity) <==> kind.backward(moder, entity) by {
            if kind.forward(moder, entity) && !kind.backward(moder, entity) {
                assert(world.kinds[(k as usize) as int].forward(moder, entity));
                assert(world.queue.contains(
                    CommandView::Unlink { kind: k as usize, moder, entity },
                ));
            }
            if kind.backward(moder, entity) && !kind.forward(moder, entity) {
                assert(world.kinds[(k as usize) as int].backward(moder, entity));
                assert(world.queue.contains(
                    CommandView::Unlink { kind: k as usize, moder, entity },
                ));
            }
        }
        assert forall|pair: (u64, u64)| pairs.contains(pair) == kind.related(pair.0, pair.1) by {}
        assert forall|moder: u64| stored.first.dom().contains(moder) <==> kind.first.dom().contains(
            moder,
        ) by {
            if stored.first.dom().contains(moder) {
                let entity = choose|entity: u64| pairs.contains((moder, entity));
                assert(kind.related(moder, entity));
            }
            if kind.first.dom().contains(moder) {
                assert(!(kind.first[moder] =~= Set::<u64>::empty()));
                let entity = choose|entity: u64| kind.first[moder].contains(entity);
                assert(kind.forward(moder, entity));
                assert(pairs.contains((moder, entity)));
            }
        }
        assert forall|entity: u64|
            stored.second.dom().contains(entity) <==> kind.second.dom().contains(entity) by {
            if stored.second.dom().contains(entity) {
                let moder = choose|moder: u64| pairs.contains((moder, entity));
                assert(kind.related(moder, entity));
            }
            if kind.second.dom().contains(entity) {
                assert(!(kind.second[entity] =~= Set::<u64>::empty()));
                let moder = choose|moder: u64| kind.second[entity].contains(moder);
                assert(kind.backward(moder, entity));
                assert(pairs.contains((moder, entity)));
            }
        }
        assert forall|moder: u64| kind.first.dom().contains(moder) implies stored.first[moder]
            =~= kind.first[moder] by {
            assert forall|entity: u64|
                stored.first[moder].contains(entity) <==> kind.first[moder].contains(entity) by {
                assert(pairs.contains((moder, entity)) == kind.related(moder, entity));
                assert(kind.forward(moder, entity) == kind.first[moder].contains(entity));
            }
        }
        assert forall|entity: u64| kind.second.dom().contains(entity) implies stored.second[entity]
            =~= kind.second[entity] by {
            assert forall|moder: u64|
                stored.second[entity].contains(moder) <==> kind.second[entity].contains(moder) by {
                assert(pairs.contains((moder, entity)) == kind.related(moder, entity));
                assert(kind.backward(moder, entity) == kind.second[entity].contains(moder));
            }
        }
        assert(stored.first =~= kind.first);
        assert(stored.second =~= kind.second);
    }
    assert(settled.kinds =~= world.kinds);
}

/// A step does not change what the queue comes to.
pub proof fn lemma_step_settles(world: WorldView, after: WorldView)
    requires
        world.inv(),
        world.queue.len() > 0,
        world.steps_to(after),
    ensures
        after.relations().run_all(after.queue) == world.relations().run_all(world.queue),
{
    let rest = world.with_queue(world.queue.drop_first());
    assert(rest.relations() == world.relations());
    match world.queue[0] {
        CommandView::Link { kind, moder, entity } => {
            lemma_link_relations(rest, kind, moder, entity);
        },
        CommandView::Unlink { kind, moder, entity } => {
            lemma_unlink_relations(rest, kind, moder, entity);
        },
        CommandView::Despawn { entity } => {
            let tail = after.queue.skip(rest.queue.len() as int);
            assert(after.queue =~= rest.queue + tail);
            lemma_despawn_relations(rest, entity, tail);
            lemma_relations_closed(world);
            lemma_run_closed(world.relations(), world.queue[0]);
            lemma_despawn_tail(rest, entity, after);
            let relations = after.relations();
            assert forall|i: int| 0 <= i < tail.len() implies relations.unlinks_dead(
                #[trigger] tail[i],
            ) by {
                assert(tail[i] == after.queue[rest.queue.len() + i]);
            }
            lemma_dead_unlinks_last(relations, rest.queue, tail);
        },
    }
}

/// Draining the queue of a world that is in order comes to what the world
/// settles to, whichever way the steps went.
pub proof fn lemma_drained_is_settled(world: WorldView, after: WorldView)
    requires
        after.inv(),
        after.queue.len() == 0,
        after.relations() == world.relations().run_all(world.queue),
    ensures
        after == world.settled(),
{
    lemma_settled_fixed(after);
    assert(after.queue =~= Seq::<CommandView>::empty());
}

} // verus!

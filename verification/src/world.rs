//! The world: the entities that live, their adjacency records, and the queue
//! of commands that waits to be applied.

use crate::bound::lemma_step_bound;
use crate::command::{Command, CommandQueue};
use crate::entity::EntityId;
use crate::entity_set::{
    entity_set_contents, has_len, set_clone, set_contains, set_insert, set_new, set_remove,
};
use crate::model::{CommandView, KindView, Records, WorldView};
use crate::preserve::{
    lemma_clear_inv, lemma_enqueue_inv, lemma_forgets_all, lemma_forgets_step,
    lemma_register_inv, lemma_spawn_inv, lemma_step_inv,
};
use crate::record::{bits_of, entities_of, is_ordering, AdjacencyRecord, OutputEntity};
use crate::role::{Role, Side};
use crate::settle::{lemma_drained_is_settled, lemma_step_settles};
use crate::theorems::drained_world_is_consistent;
use bevy_ecs::entity::EntityHashSet;
use std::collections::HashMap;
use vstd::prelude::*;

verus! {

broadcast use vstd::std_specs::hash::group_hash_axioms;

/// The stored records of one relation kind, by the bit pattern of the owner.
struct RoleTables {
    first: HashMap<u64, EntityHashSet>,
    second: HashMap<u64, EntityHashSet>,
}

/// What a table of stored records holds.
spec fn records_view(table: HashMap<u64, EntityHashSet>) -> Records {
    Map::new(
        |owner: u64| table@.dom().contains(owner),
        |owner: u64| entity_set_contents(table@[owner]),
    )
}

impl View for RoleTables {
    type V = KindView;

    closed spec fn view(&self) -> KindView {
        KindView { first: records_view(self.first), second: records_view(self.second) }
    }
}

/// The record of `owner` in a table, if it has one.
fn table_get(table: &HashMap<u64, EntityHashSet>, owner: EntityId) -> (record: Option<
    AdjacencyRecord,
>)
    ensures
        record is Some <==> records_view(*table).dom().contains(owner@),
        record matches Some(r) ==> r@ == records_view(*table)[owner@],
{
    let bits = owner.to_bits();
    match table.get(&bits) {
        Some(set) => Some(AdjacencyRecord::new_self(set_clone(set))),
        None => None,
    }
}

/// Stores `record` as the record of `owner`, in place of the one it had.
fn table_insert(table: &mut HashMap<u64, EntityHashSet>, owner: EntityId, record: AdjacencyRecord)
    ensures
        records_view(*final(table)) == records_view(*old(table)).insert(owner@, record@),
{
    let bits = owner.to_bits();
    let set = record.entity_set();
    table.insert(bits, set);
    assert(records_view(*table) =~= records_view(*old(table)).insert(owner@, record@));
}

/// Removes the record of `owner` and hands it out.
fn table_remove(table: &mut HashMap<u64, EntityHashSet>, owner: EntityId) -> (record: Option<
    AdjacencyRecord,
>)
    ensures
        records_view(*final(table)) == records_view(*old(table)).remove(owner@),
        record is Some <==> records_view(*old(table)).dom().contains(owner@),
        record matches Some(r) ==> r@ == records_view(*old(table))[owner@],
{
    let bits = owner.to_bits();
    let taken = table.remove(&bits);
    assert(records_view(*table) =~= records_view(*old(table)).remove(owner@));
    match taken {
        Some(set) => Some(AdjacencyRecord::new_self(set)),
        None => None,
    }
}

/// The world in which entities live and are related.
pub struct World {
    entities: EntityHashSet,
    kinds: Vec<RoleTables>,
    commands: CommandQueue,
}

impl View for World {
    type V = WorldView;

    closed spec fn view(&self) -> WorldView {
        WorldView {
            live: entity_set_contents(self.entities),
            kinds: self.kinds@.map_values(|tables: RoleTables| tables@),
            queue: self.commands@,
        }
    }
}

impl World {
    /// Whether the world is in order: its model satisfies the invariant.
    pub open spec fn wf(&self) -> bool {
        self@.inv()
    }

    /// A world without entities, relation kinds or commands.
    pub fn new() -> (world: World)
        ensures
            world.wf(),
            world@ == WorldView::empty(),
    {
        let world = World { entities: set_new(), kinds: Vec::new(), commands: CommandQueue::new() };
        assert(world@.kinds =~= Seq::<KindView>::empty());
        world
    }

    /// Declares a relation kind and returns its number. Nothing is related
    /// under it yet.
    pub fn register_kind(&mut self) -> (kind: usize)
        requires
            old(self).wf(),
        ensures
            final(self).wf(),
            kind == old(self)@.kinds.len(),
            final(self)@ == (WorldView {
                kinds: old(self)@.kinds.push(KindView::empty()),
                ..old(self)@
            }),
    {
        let kind = self.kinds.len();
        self.kinds.push(RoleTables { first: HashMap::new(), second: HashMap::new() });
        let count = self.kinds.len();
        proof {
            let tables = self.kinds@[kind as int];
            assert(tables@.first =~= Map::<u64, Set<u64>>::empty());
            assert(tables@.second =~= Map::<u64, Set<u64>>::empty());
            assert(self@.kinds =~= old(self)@.kinds.push(KindView::empty()));
            assert(old(self)@.kinds.len() + 1 == count);
            lemma_register_inv(old(self)@);
        }
        kind
    }

    /// The number of relation kinds that have been declared.
    pub fn kind_count(&self) -> (count: usize)
        ensures
            count == self@.kinds.len(),
    {
        self.kinds.len()
    }

    /// Makes `entity` live. The result tells whether it was not live before.
    pub fn spawn(&mut self, entity: EntityId) -> (fresh: bool)
        requires
            old(self).wf(),
        ensures
            final(self).wf(),
            fresh == !old(self)@.live.contains(entity@),
            final(self)@ == (WorldView { live: old(self)@.live.insert(entity@), ..old(self)@ }),
    {
        let fresh = set_insert(&mut self.entities, entity.to_bits());
        proof {
            lemma_spawn_inv(old(self)@, entity@);
        }
        fresh
    }

    /// Whether `entity` lives.
    pub fn contains(&self, entity: EntityId) -> (present: bool)
        ensures
            present == self@.live.contains(entity@),
    {
        set_contains(&self.entities, entity.to_bits())
    }

    /// The entities that live, each once, in no particular order.
    pub fn entities(&self) -> (entities: Vec<EntityId>)
        ensures
            is_ordering(entities@, self@.live),
    {
        entities_of(&self.entities)
    }

    /// The number of entities that hold a record for `role`.
    pub fn record_count(&self, role: Role) -> (count: usize)
        ensures
            has_len(self@.records(role).dom(), count as nat),
    {
        if role.kind < self.kinds.len() {
            match role.side {
                Side::First => {
                    assert(self@.records(role).dom() =~= self.kinds[role.kind as int].first@.dom());
                    self.kinds[role.kind].first.len()
                },
                Side::Second => {
                    assert(self@.records(role).dom() =~= self.kinds[role.kind as int].second@.dom());
                    self.kinds[role.kind].second.len()
                },
            }
        } else {
            0
        }
    }

    /// The entities that hold a record for `role`, each once, in no
    /// particular order.
    pub fn holders(&self, role: Role) -> (owners: Vec<EntityId>)
        requires
            self.wf(),
        ensures
            is_ordering(owners@, self@.records(role).dom()),
    {
        let live = self.entities();
        let mut owners: Vec<EntityId> = Vec::new();
        let ghost live_bits = bits_of(live@);
        let ghost owning = self@.records(role).dom();
        let mut i: usize = 0;
        while i < live.len()
            invariant
                i <= live.len(),
                live_bits == bits_of(live@),
                live_bits.no_duplicates(),
                owning == self@.records(role).dom(),
                bits_of(owners@).no_duplicates(),
                forall|b: u64| #[trigger]
                    bits_of(owners@).contains(b) <==> (owning.contains(b)
                        && live_bits.take(i as int).contains(b)),
            decreases live.len() - i,
        {
            let entity = live[i];
            let ghost before = bits_of(owners@);
            let holds_one = match self.get(role, entity) {
                Some(_) => true,
                None => false,
            };
            proof {
                assert(live_bits[i as int] == entity@);
                assert(live_bits.take(i + 1) =~= live_bits.take(i as int).push(entity@));
                assert forall|b: u64| #[trigger]
                    live_bits.take(i + 1).contains(b) <==> (live_bits.take(i as int).contains(b)
                        || b == entity@) by {
                    if live_bits.take(i as int).contains(b) {
                        let j = choose|j: int|
                            0 <= j < i && live_bits.take(i as int)[j] == b;
                        assert(live_bits.take(i + 1)[j] == b);
                    }
                    if b == entity@ {
                        assert(live_bits.take(i + 1)[i as int] == b);
                    }
                }
                if live_bits.take(i as int).contains(entity@) {
                    let j = choose|j: int| 0 <= j < i && live_bits.take(i as int)[j] == entity@;
                    assert(live_bits[j] == live_bits[i as int]);
                }
            }
            if holds_one {
                owners.push(entity);
                proof {
                    let after = bits_of(owners@);
                    assert(after =~= before.push(entity@));
                    assert(!before.contains(entity@));
                    assert forall|x: int, y: int|
                        0 <= x < after.len() && 0 <= y < after.len() && x != y implies after[x]
                        != after[y] by {
                        if x < before.len() {
                            assert(before.contains(before[x]));
                        }
                        if y < before.len() {
                            assert(before.contains(before[y]));
                        }
                    }
                    assert forall|b: u64| #[trigger]
                        after.contains(b) <==> (before.contains(b) || b == entity@) by {
                        if before.contains(b) {
                            let j = choose|j: int| 0 <= j < before.len() && before[j] == b;
                            assert(after[j] == b);
                        }
                        if b == entity@ {
                            assert(after[before.len() as int] == b);
                        }
                    }
                }
            }
            i += 1;
        }
        proof {
            let bits = bits_of(owners@);
            assert(live_bits.take(i as int) =~= live_bits);
            assert forall|b: u64| owning.contains(b) implies live_bits.contains(b) by {
                if role.kind < self@.kinds.len() {
                    assert(self@.kinds[role.kind as int].inv(self@.live));
                    assert(self@.live.contains(b));
                    assert(live_bits.to_set().contains(b));
                }
            }
            assert(bits.to_set() =~= owning);
        }
        owners
    }

    /// The adjacency record that `entity` holds for `role`, if it holds one.
    /// A record that is held is never empty.
    pub fn get(&self, role: Role, entity: EntityId) -> (record: Option<AdjacencyRecord>)
        ensures
            record is Some <==> self@.records(role).dom().contains(entity@),
            record matches Some(r) ==> r@ == self@.records(role)[entity@] && (self.wf() ==> !(r@
                =~= Set::<u64>::empty())),
    {
        proof {
            if self.wf() && role.kind < self@.kinds.len() {
                assert(self@.kinds[role.kind as int].inv(self@.live));
            }
        }
        if role.kind < self.kinds.len() {
            match role.side {
                Side::First => table_get(&self.kinds[role.kind].first, entity),
                Side::Second => table_get(&self.kinds[role.kind].second, entity),
            }
        } else {
            None
        }
    }

    /// Stores `record` as the record of `entity` for `role`.
    pub(crate) fn insert_record(&mut self, role: Role, entity: EntityId, record: AdjacencyRecord)
        requires
            role.kind < old(self)@.kinds.len(),
        ensures
            final(self)@ == old(self)@.with_records(
                role,
                old(self)@.records(role).insert(entity@, record@),
            ),
    {
        match role.side {
            Side::First => table_insert(&mut self.kinds[role.kind].first, entity, record),
            Side::Second => table_insert(&mut self.kinds[role.kind].second, entity, record),
        }
        assert(self@.kinds =~= old(self)@.with_records(
            role,
            old(self)@.records(role).insert(entity@, record@),
        ).kinds);
    }

    /// Removes the record of `entity` for `role` and hands it out.
    pub(crate) fn remove_record(&mut self, role: Role, entity: EntityId) -> (record: Option<
        AdjacencyRecord,
    >)
        requires
            role.kind < old(self)@.kinds.len(),
        ensures
            final(self)@ == old(self)@.with_records(
                role,
                old(self)@.records(role).remove(entity@),
            ),
            record is Some <==> old(self)@.records(role).dom().contains(entity@),
            record matches Some(r) ==> r@ == old(self)@.records(role)[entity@],
    {
        let record = match role.side {
            Side::First => table_remove(&mut self.kinds[role.kind].first, entity),
            Side::Second => table_remove(&mut self.kinds[role.kind].second, entity),
        };
        assert(self@.kinds =~= old(self)@.with_records(
            role,
            old(self)@.records(role).remove(entity@),
        ).kinds);
        record
    }

    /// Removes the record that `entity` holds for `role`, if it holds one, and
    /// tells the cascade, which enqueues an unlink for each partner that the
    /// record named. The result tells whether there was a record.
    pub fn clear_record(&mut self, role: Role, entity: EntityId) -> (removed: bool)
        requires
            old(self).wf(),
        ensures
            final(self).wf(),
            removed == old(self)@.records(role).dom().contains(entity@),
            old(self)@.clears_to(role, entity@, final(self)@),
    {
        let removed = if role.kind < self.kinds.len() {
            match self.remove_record(role, entity) {
                Some(record) => {
                    role.on_remove(&mut self.commands, entity, &record);
                    true
                },
                None => false,
            }
        } else {
            false
        };
        proof {
            let tail = self@.queue.skip(old(self)@.queue.len() as int);
            assert(self@.queue =~= old(self)@.queue + tail);
            if role.kind < old(self)@.kinds.len() {
                if !removed {
                    assert(old(self)@.records(role).remove(entity@) =~= old(self)@.records(role));
                }
                assert(self@.kinds =~= old(self)@.clear(role, entity@, tail).kinds);
            }
            lemma_clear_inv(old(self)@, role, entity@, tail);
        }
        removed
    }

    /// Removes every record that `entity` holds, the cascade being told of
    /// each. The entity goes on living, if it lived; the records of its
    /// partners still name it until the enqueued unlinks are applied.
    pub fn clear_records(&mut self, entity: EntityId)
        requires
            old(self).wf(),
        ensures
            final(self).wf(),
            old(self)@.forgets(entity@, final(self)@),
    {
        let mut kind: usize = 0;
        proof {
            let tail = self@.queue.skip(self@.queue.len() as int);
            assert(tail =~= Seq::<CommandView>::empty());
            assert(tail.to_multiset() =~= vstd::multiset::Multiset::empty()) by {
                tail.to_multiset_ensures();
            }
        }
        while kind < self.kinds.len()
            invariant
                self.wf(),
                kind <= self@.kinds.len(),
                old(self)@.forgets_below(entity@, kind as int, self@),
            decreases self@.kinds.len() - kind,
        {
            let ghost before = self@;
            let _ = self.clear_record(Role::first(kind), entity);
            let ghost between = self@;
            let _ = self.clear_record(Role::second(kind), entity);
            proof {
                lemma_forgets_step(old(self)@, entity@, kind, before, between, self@);
            }
            kind += 1;
        }
    }

    /// Destroys `entity`: each record that it holds is removed, the cascade
    /// being told of each, and the entity stops living. The records of its
    /// partners still name it until the enqueued unlinks are applied. The
    /// result tells whether the entity lived.
    pub fn despawn(&mut self, entity: EntityId) -> (was_live: bool)
        requires
            old(self).wf(),
        ensures
            final(self).wf(),
            was_live == old(self)@.live.contains(entity@),
            old(self)@.despawns_to(entity@, final(self)@),
    {
        self.clear_records(entity);
        let ghost before = self@;
        let was_live = set_remove(&mut self.entities, entity.to_bits());
        proof {
            lemma_forgets_all(old(self)@, entity@, before);
        }
        was_live
    }

    /// Takes the next command from the queue and applies it. The result tells
    /// whether there was one.
    pub fn step(&mut self) -> (applied: bool)
        requires
            old(self).wf(),
        ensures
            final(self).wf(),
            applied == (old(self)@.queue.len() > 0),
            old(self)@.steps_to(final(self)@),
    {
        match self.commands.get(0) {
            None => false,
            Some(command) => {
                match command {
                    Command::Link(link) => link.apply(self),
                    Command::Unlink(unlink) => unlink.apply(self),
                    Command::Despawn(entity) => {
                        let _ = self.despawn(entity);
                    },
                }
                let ghost applied = self@;
                let _ = self.commands.pop();
                proof {
                    lemma_step_inv(old(self)@, applied);
                }
                true
            },
        }
    }

    /// The apply point: drains the queue, applying each command in the order
    /// in which it came; the unlinks that cascades enqueue on the way are
    /// applied before the drain ends. Afterwards nothing waits, the two roles
    /// of every kind agree, and no record names an entity that does not live.
    pub fn apply(&mut self)
        requires
            old(self).wf(),
        ensures
            final(self).wf(),
            final(self)@ == old(self)@.settled(),
            final(self)@.symmetric(),
            final(self)@.no_dangling(),
    {
        while !self.commands.is_empty()
            invariant
                self.wf(),
                self@.relations().run_all(self@.queue) == old(self)@.relations().run_all(
                    old(self)@.queue,
                ),
            decreases self@.drain_bound(),
        {
            let ghost before = self@;
            let _ = self.step();
            proof {
                lemma_step_settles(before, self@);
                lemma_step_bound(before, self@);
            }
        }
        proof {
            lemma_drained_is_settled(old(self)@, self@);
            drained_world_is_consistent(self@);
        }
    }

    /// The number of commands that wait in the queue.
    pub fn pending(&self) -> (count: usize)
        ensures
            count == self@.queue.len(),
    {
        self.commands.len()
    }

    /// The queue of the world, to add commands to. Whatever is added, the
    /// world stays in order; nothing may be taken from the queue but by the
    /// world itself.
    pub fn commands(&mut self) -> (commands: &mut CommandQueue)
        ensures
            commands@ == old(self)@.queue,
            final(self)@ == old(self)@.with_queue(final(commands)@),
            old(self).wf() && old(self)@.queue.is_prefix_of(final(commands)@) ==> final(self).wf(),
    {
        proof {
            let before = self@;
            assert forall|queue: Seq<CommandView>|
                before.inv() && before.queue.is_prefix_of(queue) implies (
            #[trigger] before.with_queue(queue)).inv() by {
                lemma_enqueue_inv(before, queue);
            }
        }
        &mut self.commands
    }
}

} // verus!

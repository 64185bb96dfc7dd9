//! Commands and their queue. A command names one pair of entities and one
//! relation kind; the queue holds commands in the order in which they came.

use crate::entity::EntityId;
use crate::entity_set::{set_insert, set_is_empty, set_remove};
use crate::model::{lemma_cascade_of_nothing, CommandView};
use crate::preserve::{lemma_link_inv, lemma_unlink_inv};
use crate::record::{AdjacencyRecord, OutputEntity};
use crate::role::Role;
use crate::world::World;
use std::collections::VecDeque;
use vstd::prelude::*;

verus! {

/// The command that links two entities: `moder` takes the first role of the
/// kind, `entity` the second.
#[derive(Clone, Copy, Debug, PartialEq, Eq, Structural)]
pub struct ShareMod {
    kind: usize,
    moder: EntityId,
    entity: EntityId,
}

impl View for ShareMod {
    type V = CommandView;

    closed spec fn view(&self) -> CommandView {
        CommandView::Link { kind: self.kind, moder: self.moder@, entity: self.entity@ }
    }
}

impl ShareMod {
    /// The link of `moder` and `entity` under `kind`.
    pub fn new(kind: usize, moder: EntityId, entity: EntityId) -> (link: ShareMod)
        ensures
            link@ == (CommandView::Link { kind, moder: moder@, entity: entity@ }),
    {
        ShareMod { kind, moder, entity }
    }

    /// The relation kind.
    pub fn kind(&self) -> (kind: usize)
        ensures
            self@ matches CommandView::Link { kind: k, .. } && k == kind,
    {
        self.kind
    }

    /// The entity in the first role.
    pub fn moder(&self) -> (moder: EntityId)
        ensures
            self@ matches CommandView::Link { moder: m, .. } && m == moder@,
    {
        self.moder
    }

    /// The entity in the second role.
    pub fn entity(&self) -> (entity: EntityId)
        ensures
            self@ matches CommandView::Link { entity: e, .. } && e == entity@,
    {
        self.entity
    }

    /// Applies the link: `entity` joins the first-role record of `moder`, and
    /// `moder` the second-role record of `entity`; a record that is absent is
    /// made. Where the kind is unknown or one of the two does not live,
    /// nothing happens.
    pub fn apply(self, world: &mut World)
        requires
            old(world).wf(),
        ensures
            final(world).wf(),
            self@ matches CommandView::Link { kind, moder, entity } && final(world)@ == old(
                world,
            )@.link(kind, moder, entity),
    {
        if self.kind < world.kind_count() && world.contains(self.moder) && world.contains(
            self.entity,
        ) {
            let first = Role::first(self.kind);
            let second = Role::second(self.kind);
            {
                let mut entities = match world.get(first, self.moder) {
                    Some(record) => record,
                    None => AdjacencyRecord::default(),
                }.entity_set();
                let _ = set_insert(&mut entities, self.entity.to_bits());
                world.insert_record(first, self.moder, AdjacencyRecord::new_self(entities));
            }
            {
                let mut moders = match world.get(second, self.entity) {
                    Some(record) => record,
                    None => AdjacencyRecord::default(),
                }.entity_set();
                let _ = set_insert(&mut moders, self.moder.to_bits());
                world.insert_record(second, self.entity, AdjacencyRecord::new_self(moders));
            }
            proof {
                let after = old(world)@.link(self.kind, self.moder@, self.entity@);
                assert(world@.kinds =~= after.kinds);
            }
        }
        proof {
            lemma_link_inv(old(world)@, self.kind, self.moder@, self.entity@);
        }
    }
}

/// The command that unlinks two entities: `moder` in the first role of the
/// kind, `entity` in the second.
#[derive(Clone, Copy, Debug, PartialEq, Eq, Structural)]
pub struct RemoveMod {
    kind: usize,
    moder: EntityId,
    entity: EntityId,
}

impl View for RemoveMod {
    type V = CommandView;

    closed spec fn view(&self) -> CommandView {
        CommandView::Unlink { kind: self.kind, moder: self.moder@, entity: self.entity@ }
    }
}

impl RemoveMod {
    /// The unlink of `moder` and `entity` under `kind`.
    pub fn new(kind: usize, moder: EntityId, entity: EntityId) -> (unlink: RemoveMod)
        ensures
            unlink@ == (CommandView::Unlink { kind, moder: moder@, entity: entity@ }),
    {
        RemoveMod { kind, moder, entity }
    }

    /// The relation kind.
    pub fn kind(&self) -> (kind: usize)
        ensures
            self@ matches CommandView::Unlink { kind: k, .. } && k == kind,
    {
        self.kind
    }

    /// The entity in the first role.
    pub fn moder(&self) -> (moder: EntityId)
        ensures
            self@ matches CommandView::Unlink { moder: m, .. } && m == moder@,
    {
        self.moder
    }

    /// The entity in the second role.
    pub fn entity(&self) -> (entity: EntityId)
        ensures
            self@ matches CommandView::Unlink { entity: e, .. } && e == entity@,
    {
        self.entity
    }

    /// Applies the unlink: `entity` leaves the first-role record of `moder`,
    /// and `moder` the second-role record of `entity`. A record that this
    /// empties is removed, and the cascade is told of the removal with the
    /// record as it then stands: it names nobody, so nothing is enqueued.
    /// Where the pair is not related, or the kind is unknown, nothing happens.
    pub fn apply(self, world: &mut World)
        requires
            old(world).wf(),
        ensures
            final(world).wf(),
            self@ matches CommandView::Unlink { kind, moder, entity } && final(world)@ == old(
                world,
            )@.unlink(kind, moder, entity),
    {
        if self.kind < world.kind_count() {
            let first = Role::first(self.kind);
            let second = Role::second(self.kind);
            if let Some(record) = world.get(first, self.moder) {
                let mut entities = record.entity_set();
                let _ = set_remove(&mut entities, self.entity.to_bits());
                if set_is_empty(&entities) {
                    let _ = world.remove_record(first, self.moder);
                    let ghost before = world@;
                    let left = AdjacencyRecord::new_self(entities);
                    first.on_remove(world.commands(), self.moder, &left);
                    proof {
                        lemma_cascade_of_nothing(
                            world@.queue.skip(before.queue.len() as int),
                            first,
                            self.moder@,
                        );
                        assert(world@.queue =~= before.queue);
                    }
                } else {
                    world.insert_record(first, self.moder, AdjacencyRecord::new_self(entities));
                }
            }
            if let Some(record) = world.get(second, self.entity) {
                let mut moders = record.entity_set();
                let _ = set_remove(&mut moders, self.moder.to_bits());
                if set_is_empty(&moders) {
                    let _ = world.remove_record(second, self.entity);
                    let ghost before = world@;
                    let left = AdjacencyRecord::new_self(moders);
                    second.on_remove(world.commands(), self.entity, &left);
                    proof {
                        lemma_cascade_of_nothing(
                            world@.queue.skip(before.queue.len() as int),
                            second,
                            self.entity@,
                        );
                        assert(world@.queue =~= before.queue);
                    }
                } else {
                    world.insert_record(second, self.entity, AdjacencyRecord::new_self(moders));
                }
            }
            proof {
                let after = old(world)@.unlink(self.kind, self.moder@, self.entity@);
                assert(world@.kinds =~= after.kinds);
            }
        }
        proof {
            lemma_unlink_inv(old(world)@, self.kind, self.moder@, self.entity@);
        }
    }
}

/// What the queue holds.
#[derive(Clone, Copy, Debug, PartialEq, Eq, Structural)]
pub enum Command {
    /// Link a pair.
    Link(ShareMod),
    /// Unlink a pair.
    Unlink(RemoveMod),
    /// Destroy an entity.
    Despawn(EntityId),
}

impl View for Command {
    type V = CommandView;

    open spec fn view(&self) -> CommandView {
        match self {
            Command::Link(link) => link@,
            Command::Unlink(unlink) => unlink@,
            Command::Despawn(entity) => CommandView::Despawn { entity: entity@ },
        }
    }
}

/// The queue of commands: first in, first out.
pub struct CommandQueue {
    items: VecDeque<Command>,
}

impl View for CommandQueue {
    type V = Seq<CommandView>;

    closed spec fn view(&self) -> Seq<CommandView> {
        self.items@.map_values(|command: Command| command@)
    }
}

impl CommandQueue {
    /// A queue that holds nothing.
    pub fn new() -> (queue: CommandQueue)
        ensures
            queue@ == Seq::<CommandView>::empty(),
    {
        let queue = CommandQueue { items: VecDeque::new() };
        assert(queue@ =~= Seq::<CommandView>::empty());
        queue
    }

    /// Puts a command at the end of the queue.
    pub fn queue(&mut self, command: Command)
        ensures
            final(self)@ == old(self)@.push(command@),
    {
        self.items.push_back(command);
        assert(self@ =~= old(self)@.push(command@));
    }

    /// Enqueues the link of `moder`, in the first role of `kind`, and
    /// `entity`, in the second.
    pub fn link(&mut self, kind: usize, moder: EntityId, entity: EntityId)
        ensures
            final(self)@ == old(self)@.push(
                CommandView::Link { kind, moder: moder@, entity: entity@ },
            ),
    {
        self.queue(Command::Link(ShareMod::new(kind, moder, entity)));
    }

    /// Enqueues the unlink of `moder`, in the first role of `kind`, and
    /// `entity`, in the second.
    pub fn unlink(&mut self, kind: usize, moder: EntityId, entity: EntityId)
        ensures
            final(self)@ == old(self)@.push(
                CommandView::Unlink { kind, moder: moder@, entity: entity@ },
            ),
    {
        self.queue(Command::Unlink(RemoveMod::new(kind, moder, entity)));
    }

    /// The number of commands that wait.
    pub fn len(&self) -> (count: usize)
        ensures
            count == self@.len(),
    {
        self.items.len()
    }

    /// Whether no command waits.
    pub fn is_empty(&self) -> (vacant: bool)
        ensures
            vacant == (self@.len() == 0),
    {
        self.items.len() == 0
    }

    /// The command at a place in the queue, the next one to run at place 0.
    pub fn get(&self, index: usize) -> (command: Option<Command>)
        ensures
            command is Some <==> index < self@.len(),
            command matches Some(c) ==> c@ == self@[index as int],
    {
        if index < self.items.len() {
            Some(self.items[index])
        } else {
            None
        }
    }

    /// Takes the next command from the queue.
    pub(crate) fn pop(&mut self) -> (command: Option<Command>)
        ensures
            old(self)@.len() == 0 ==> command is None && final(self)@ == old(self)@,
            old(self)@.len() > 0 ==> final(self)@ == old(self)@.drop_first() && (command matches Some(
                c,
            ) && c@ == old(self)@[0]),
    {
        let command = self.items.pop_front();
        assert(old(self)@.len() > 0 ==> self@ =~= old(self)@.drop_first());
        command
    }
}

} // verus!

//! Entity-scoped commands: a handle on one entity, through which links and
//! unlinks with that entity as one side are enqueued.

use crate::command::{Command, CommandQueue};
use crate::entity::EntityId;
use crate::model::CommandView;
use crate::role::Role;
use vstd::prelude::*;

verus! {

/// What names a role for the entity-scoped commands: it turns an entity, which
/// takes the role, and a partner into the link or the unlink of the two.
pub trait ModExtent {
    /// The link of `ent_1`, which takes the role, and `ent_2`.
    spec fn link_of(&self, ent_1: u64, ent_2: u64) -> CommandView;

    /// The unlink of `ent_1`, which takes the role, and `ent_2`.
    spec fn unlink_of(&self, ent_1: u64, ent_2: u64) -> CommandView;

    /// Enqueues the link of `ent_1`, which takes the role, and `ent_2`.
    fn add_it(&self, cmd: &mut CommandQueue, ent_1: EntityId, ent_2: EntityId)
        ensures
            final(cmd)@ == old(cmd)@.push(self.link_of(ent_1@, ent_2@)),
    ;

    /// Enqueues the unlink of `ent_1`, which takes the role, and `ent_2`.
    fn remove_it(&self, cmd: &mut CommandQueue, ent_1: EntityId, ent_2: EntityId)
        ensures
            final(cmd)@ == old(cmd)@.push(self.unlink_of(ent_1@, ent_2@)),
    ;
}

impl ModExtent for Role {
    open spec fn link_of(&self, ent_1: u64, ent_2: u64) -> CommandView {
        self.link_command(ent_1, ent_2)
    }

    open spec fn unlink_of(&self, ent_1: u64, ent_2: u64) -> CommandView {
        self.unlink_command(ent_1, ent_2)
    }

    fn add_it(&self, cmd: &mut CommandQueue, ent_1: EntityId, ent_2: EntityId) {
        cmd.queue(Command::Link(self.link(ent_1, ent_2)));
    }

    fn remove_it(&self, cmd: &mut CommandQueue, ent_1: EntityId, ent_2: EntityId) {
        cmd.queue(Command::Unlink(self.unlink(ent_1, ent_2)));
    }
}

/// A handle on one entity and on the queue that its commands go to.
pub struct EntityCommands<'a> {
    /// The entity that the commands of the handle are about.
    pub entity: EntityId,
    /// The queue that the commands of the handle go to.
    pub commands: &'a mut CommandQueue,
}

impl<'a> EntityCommands<'a> {
    /// The entity.
    pub fn id(&self) -> (entity: EntityId)
        ensures
            entity == self.entity,
    {
        self.entity
    }

    /// Enqueues the destruction of the entity.
    pub fn despawn(&mut self)
        ensures
            final(self).commands@ == old(self).commands@.push(
                CommandView::Despawn { entity: old(self).entity@ },
            ),
            final(self).entity == old(self).entity,
            *final(final(self).commands) == *final(old(self).commands),
    {
        self.commands.queue(Command::Despawn(self.entity));
    }
}

impl CommandQueue {
    /// A handle on `entity`, whose commands go to this queue.
    pub fn entity(&mut self, entity: EntityId) -> (handle: EntityCommands<'_>)
        ensures
            handle.entity == entity,
            *handle.commands == *old(self),
            *final(self) == *final(handle.commands),
    {
        EntityCommands { entity, commands: self }
    }
}

/// The entity-scoped commands.
pub trait Many2Many {
    /// The bit pattern of the entity that the commands are scoped to.
    spec fn scope(&self) -> u64;

    /// The queue that the commands go to, as it stands.
    spec fn pending(&self) -> Seq<CommandView>;

    /// Enqueues the link of the entity, which takes `role`, and `child`.
    fn add_mod<T: ModExtent>(&mut self, role: &T, child: EntityId)
        ensures
            final(self).pending() == old(self).pending().push(
                role.link_of(old(self).scope(), child@),
            ),
            final(self).scope() == old(self).scope(),
    ;

    /// Enqueues the unlink of the entity, which takes `role`, and `child`.
    fn remove_mod<T: ModExtent>(&mut self, role: &T, child: EntityId)
        ensures
            final(self).pending() == old(self).pending().push(
                role.unlink_of(old(self).scope(), child@),
            ),
            final(self).scope() == old(self).scope(),
    ;
}

impl<'a> Many2Many for EntityCommands<'a> {
    open spec fn scope(&self) -> u64 {
        self.entity@
    }

    open spec fn pending(&self) -> Seq<CommandView> {
        self.commands@
    }

    fn add_mod<T: ModExtent>(&mut self, role: &T, child: EntityId)
        ensures
            *final(final(self).commands) == *final(old(self).commands),
    {
        let ent = self.id();
        role.add_it(self.commands, ent, child);
    }

    fn remove_mod<T: ModExtent>(&mut self, role: &T, child: EntityId)
        ensures
            *final(final(self).commands) == *final(old(self).commands),
    {
        let ent = self.id();
        role.remove_it(self.commands, ent, child);
    }
}

} // verus!

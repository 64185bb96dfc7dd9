//! The cascade: when an adjacency record is removed as a whole, an unlink is
//! enqueued for each partner that it named, so that the partner's own record
//! stops naming the owner. The cascade changes no record itself.

use crate::command::{Command, CommandQueue, RemoveMod, ShareMod};
use crate::entity::EntityId;
use crate::model::{cascade_commands, is_cascade, lemma_cascade_of_ordering};
use crate::record::AdjacencyRecord;
use crate::role::{Role, Side};
use vstd::prelude::*;

verus! {

impl Role {
    /// The command that links `own`, in this role, and `other`, in the partner
    /// role.
    pub fn link(&self, own: EntityId, other: EntityId) -> (link: ShareMod)
        ensures
            link@ == self.link_command(own@, other@),
    {
        match self.side {
            Side::First => ShareMod::new(self.kind, own, other),
            Side::Second => ShareMod::new(self.kind, other, own),
        }
    }

    /// The command that unlinks `own`, in this role, and `other`, in the
    /// partner role.
    pub fn unlink(&self, own: EntityId, other: EntityId) -> (unlink: RemoveMod)
        ensures
            unlink@ == self.unlink_command(own@, other@),
    {
        match self.side {
            Side::First => RemoveMod::new(self.kind, own, other),
            Side::Second => RemoveMod::new(self.kind, other, own),
        }
    }

    /// Enqueues, for each of `partners` in turn, the unlink of `entity`, in
    /// this role, and the partner.
    pub fn cascade(&self, commands: &mut CommandQueue, entity: EntityId, partners: &Vec<EntityId>)
        ensures
            final(commands)@ == old(commands)@ + cascade_commands(*self, entity@, partners@),
    {
        let mut i: usize = 0;
        while i < partners.len()
            invariant
                i <= partners.len(),
                commands@ == old(commands)@ + cascade_commands(
                    *self,
                    entity@,
                    partners@.take(i as int),
                ),
            decreases partners.len() - i,
        {
            let unlink = self.unlink(entity, partners[i]);
            commands.queue(Command::Unlink(unlink));
            proof {
                assert(partners@.take(i + 1) =~= partners@.take(i as int).push(partners@[i as int]));
                assert(commands@ =~= old(commands)@ + cascade_commands(
                    *self,
                    entity@,
                    partners@.take(i + 1),
                ));
            }
            i += 1;
        }
        proof {
            assert(partners@.take(i as int) =~= partners@);
        }
    }

    /// The cascade trigger: told that `record`, which `entity` held for this
    /// role, has been removed, it enqueues an unlink for each partner that the
    /// record names. In which order they come is left open.
    pub fn on_remove(&self, commands: &mut CommandQueue, entity: EntityId, record: &AdjacencyRecord)
        ensures
            old(commands)@.is_prefix_of(final(commands)@),
            is_cascade(
                final(commands)@.skip(old(commands)@.len() as int),
                *self,
                entity@,
                record@,
            ),
    {
        let partners = record.to_vec();
        self.cascade(commands, entity, &partners);
        proof {
            let tail = cascade_commands(*self, entity@, partners@);
            lemma_cascade_of_ordering(*self, entity@, partners@, record@);
            assert(commands@.skip(old(commands)@.len() as int) =~= tail);
        }
    }
}

} // verus!

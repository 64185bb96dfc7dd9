//! The mathematical model of the world: which entities live, what each
//! adjacency record holds, and which commands wait in the queue.

use crate::entity::{valid_bits, EntityId};
use crate::entity_set::has_len;
use crate::record::{bits_of, is_ordering};
use crate::role::{Role, Side};
use vstd::prelude::*;

verus! {

/// The adjacency records of one role: for each owning entity, the set of its
/// partners. An entity without a record is no key of the map.
pub type Records = Map<u64, Set<u64>>;

/// A command, with entities as bit patterns.
pub enum CommandView {
    /// Relate `moder`, in the first role of `kind`, and `entity`, in the second.
    Link { kind: usize, moder: u64, entity: u64 },
    /// Undo the relation of `moder` and `entity` under `kind`.
    Unlink { kind: usize, moder: u64, entity: u64 },
    /// Destroy `entity`.
    Despawn { entity: u64 },
}

impl Role {
    /// The link that relates `own`, in this role, and `other`, in the partner role.
    pub open spec fn link_command(self, own: u64, other: u64) -> CommandView {
        match self.side {
            Side::First => CommandView::Link { kind: self.kind, moder: own, entity: other },
            Side::Second => CommandView::Link { kind: self.kind, moder: other, entity: own },
        }
    }

    /// The unlink that undoes the relation of `own`, in this role, and `other`.
    pub open spec fn unlink_command(self, own: u64, other: u64) -> CommandView {
        match self.side {
            Side::First => CommandView::Unlink { kind: self.kind, moder: own, entity: other },
            Side::Second => CommandView::Unlink { kind: self.kind, moder: other, entity: own },
        }
    }

    /// The partner that `command` unlinks from `own` in this role, if it is
    /// such an unlink.
    pub open spec fn unlinked_partner(self, own: u64, command: CommandView) -> Option<u64> {
        match command {
            CommandView::Unlink { kind, moder, entity } => if kind != self.kind {
                None
            } else {
                match self.side {
                    Side::First => if moder == own {
                        Some(entity)
                    } else {
                        None
                    },
                    Side::Second => if entity == own {
                        Some(moder)
                    } else {
                        None
                    },
                }
            },
            _ => None,
        }
    }
}

/// The unlinks that a removed record of `owner` in `role` calls for, one for
/// each partner, in the order in which the partners are given.
pub open spec fn cascade_commands(role: Role, owner: u64, partners: Seq<EntityId>) -> Seq<
    CommandView,
> {
    partners.map_values(|partner: EntityId| role.unlink_command(owner, partner@))
}

/// Whether `tail` holds, each once and in any order, the unlinks that a
/// removed record of `owner` in `role` calls for: one for each of `partners`.
pub open spec fn is_cascade(
    tail: Seq<CommandView>,
    role: Role,
    owner: u64,
    partners: Set<u64>,
) -> bool {
    &&& tail.no_duplicates()
    &&& has_len(partners, tail.len())
    &&& forall|command: CommandView| #[trigger]
        tail.contains(command) <==> (role.unlinked_partner(owner, command) matches Some(partner)
            && partners.contains(partner))
}

/// The unlinks for the partners of a record, in whatever order the partners
/// come, are a cascade for the record.
pub proof fn lemma_cascade_of_ordering(
    role: Role,
    owner: u64,
    partners: Seq<EntityId>,
    set: Set<u64>,
)
    requires
        is_ordering(partners, set),
    ensures
        is_cascade(cascade_commands(role, owner, partners), role, owner, set),
{
    let tail = cascade_commands(role, owner, partners);
    let bits = bits_of(partners);
    bits.unique_seq_to_set();
    assert forall|i: int, j: int| 0 <= i < tail.len() && 0 <= j < tail.len() && i != j implies tail[i]
        != tail[j] by {
        assert(bits[i] == partners[i]@);
        assert(bits[j] == partners[j]@);
    }
    assert forall|command: CommandView| #[trigger]
        tail.contains(command) <==> (role.unlinked_partner(owner, command) matches Some(partner)
            && set.contains(partner)) by {
        if tail.contains(command) {
            let i = choose|i: int| 0 <= i < tail.len() && tail[i] == command;
            assert(bits[i] == partners[i]@);
            assert(bits.contains(partners[i]@));
        }
        if let Some(partner) = role.unlinked_partner(owner, command) {
            if set.contains(partner) {
                assert(bits.to_set().contains(partner));
                assert(bits.contains(partner));
                let i = choose|i: int| 0 <= i < bits.len() && bits[i] == partner;
                assert(tail[i] == command);
            }
        }
    }
}

/// A cascade for an empty record holds nothing.
pub proof fn lemma_cascade_of_nothing(tail: Seq<CommandView>, role: Role, owner: u64)
    requires
        is_cascade(tail, role, owner, Set::empty()),
    ensures
        tail == Seq::<CommandView>::empty(),
{
    if tail.len() > 0 {
        assert(tail.contains(tail[0]));
    }
    assert(tail =~= Seq::<CommandView>::empty());
}

/// Whether the record of `owner` names `partner`.
pub open spec fn holds(records: Records, owner: u64, partner: u64) -> bool {
    records.dom().contains(owner) && records[owner].contains(partner)
}

/// The partners of `owner`: what its record holds, or nothing without a record.
pub open spec fn partners_of(records: Records, owner: u64) -> Set<u64> {
    if records.dom().contains(owner) {
        records[owner]
    } else {
        Set::empty()
    }
}

/// The records after `partner` has joined the record of `owner`, which is
/// made if it was absent.
pub open spec fn with_partner(records: Records, owner: u64, partner: u64) -> Records {
    records.insert(owner, partners_of(records, owner).insert(partner))
}

/// The records after `partner` has left the record of `owner`; a record that
/// this empties is removed.
pub open spec fn without_partner(records: Records, owner: u64, partner: u64) -> Records {
    if records.dom().contains(owner) {
        let rest = records[owner].remove(partner);
        if rest =~= Set::<u64>::empty() {
            records.remove(owner)
        } else {
            records.insert(owner, rest)
        }
    } else {
        records
    }
}

/// No record is an empty set.
pub open spec fn no_empty_record(records: Records) -> bool {
    forall|owner: u64| #[trigger]
        records.dom().contains(owner) ==> !(records[owner] =~= Set::<u64>::empty())
}

/// Every owner of a record lives.
pub open spec fn owners_live(records: Records, live: Set<u64>) -> bool {
    forall|owner: u64| #[trigger] records.dom().contains(owner) ==> live.contains(owner)
}

/// The pairs of owner and partner that the records hold.
pub open spec fn half_edges(records: Records) -> Set<(u64, u64)> {
    Set::new(|pair: (u64, u64)| holds(records, pair.0, pair.1))
}

/// What linking does to the pairs that the records hold: one pair is added.
pub proof fn lemma_with_partner(records: Records, owner: u64, partner: u64)
    ensures
        forall|x: u64, y: u64|
            #[trigger] holds(with_partner(records, owner, partner), x, y) <==> holds(records, x, y)
                || (x == owner && y == partner),
        half_edges(with_partner(records, owner, partner)) == half_edges(records).insert(
            (owner, partner),
        ),
        no_empty_record(records) ==> no_empty_record(with_partner(records, owner, partner)),
        forall|live: Set<u64>|
            live.contains(owner) && #[trigger] owners_live(records, live) ==> owners_live(
                with_partner(records, owner, partner),
                live,
            ),
{
    let after = with_partner(records, owner, partner);
    assert forall|x: u64, y: u64| #[trigger]
        holds(after, x, y) <==> holds(records, x, y) || (x == owner && y == partner) by {}
    assert(half_edges(after) =~= half_edges(records).insert((owner, partner)));
    if no_empty_record(records) {
        assert forall|x: u64| #[trigger] after.dom().contains(x) implies !(after[x]
            =~= Set::<u64>::empty()) by {
            if x == owner {
                assert(after[x].contains(partner));
            } else {
                assert(records.dom().contains(x));
            }
        }
    }
    assert forall|live: Set<u64>|
        live.contains(owner) && #[trigger] owners_live(records, live) implies owners_live(
        after,
        live,
    ) by {
        assert forall|x: u64| #[trigger] after.dom().contains(x) implies live.contains(x) by {
            if x != owner {
                assert(records.dom().contains(x));
            }
        }
    }
}

/// What unlinking does to the pairs that the records hold: one pair is removed.
pub proof fn lemma_without_partner(records: Records, owner: u64, partner: u64)
    ensures
        forall|x: u64, y: u64|
            #[trigger] holds(without_partner(records, owner, partner), x, y) <==> holds(
                records,
                x,
                y,
            ) && !(x == owner && y == partner),
        half_edges(without_partner(records, owner, partner)) == half_edges(records).remove(
            (owner, partner),
        ),
        no_empty_record(records) ==> no_empty_record(without_partner(records, owner, partner)),
        forall|live: Set<u64>| #[trigger]
            owners_live(records, live) ==> owners_live(
                without_partner(records, owner, partner),
                live,
            ),
        !holds(records, owner, partner) && no_empty_record(records) ==> without_partner(
            records,
            owner,
            partner,
        ) == records,
{
    let after = without_partner(records, owner, partner);
    assert forall|x: u64, y: u64| #[trigger]
        holds(after, x, y) <==> holds(records, x, y) && !(x == owner && y == partner) by {
        if records.dom().contains(owner) {
            let rest = records[owner].remove(partner);
            if rest =~= Set::<u64>::empty() {
                if x == owner {
                    assert(rest.contains(y) == false);
                }
            }
        }
    }
    assert(half_edges(after) =~= half_edges(records).remove((owner, partner)));
    if no_empty_record(records) {
        assert forall|x: u64| #[trigger] after.dom().contains(x) implies !(after[x]
            =~= Set::<u64>::empty()) by {
            assert(records.dom().contains(x));
        }
        if !holds(records, owner, partner) {
            if records.dom().contains(owner) {
                assert(records[owner].remove(partner) =~= records[owner]);
                assert(after =~= records);
            }
        }
    }
    assert forall|live: Set<u64>| #[trigger] owners_live(records, live) implies owners_live(
        after,
        live,
    ) by {
        assert forall|x: u64| #[trigger] after.dom().contains(x) implies live.contains(x) by {
            assert(records.dom().contains(x));
        }
    }
}

/// The two opposing sets of records of one relation kind.
pub struct KindView {
    /// The records of the first role: for a moder, its entities.
    pub first: Records,
    /// The records of the second role: for an entity, its moders.
    pub second: Records,
}

impl KindView {
    /// A kind under which nothing is related.
    pub open spec fn empty() -> KindView {
        KindView { first: Map::empty(), second: Map::empty() }
    }

    /// The records of a side.
    pub open spec fn records(self, side: Side) -> Records {
        match side {
            Side::First => self.first,
            Side::Second => self.second,
        }
    }

    /// Whether the first-role record of `moder` names `entity`.
    pub open spec fn forward(self, moder: u64, entity: u64) -> bool {
        holds(self.first, moder, entity)
    }

    /// Whether the second-role record of `entity` names `moder`.
    pub open spec fn backward(self, moder: u64, entity: u64) -> bool {
        holds(self.second, entity, moder)
    }

    /// Whether `moder` and `entity` are related: each names the other.
    pub open spec fn related(self, moder: u64, entity: u64) -> bool {
        self.forward(moder, entity) && self.backward(moder, entity)
    }

    /// The kind after `moder` and `entity` have been linked.
    pub open spec fn link(self, moder: u64, entity: u64) -> KindView {
        KindView {
            first: with_partner(self.first, moder, entity),
            second: with_partner(self.second, entity, moder),
        }
    }

    /// The kind after `moder` and `entity` have been unlinked.
    pub open spec fn unlink(self, moder: u64, entity: u64) -> KindView {
        KindView {
            first: without_partner(self.first, moder, entity),
            second: without_partner(self.second, entity, moder),
        }
    }

    /// The kind after the record of `owner` on one side has been removed.
    pub open spec fn clear(self, side: Side, owner: u64) -> KindView {
        match side {
            Side::First => KindView { first: self.first.remove(owner), second: self.second },
            Side::Second => KindView { first: self.first, second: self.second.remove(owner) },
        }
    }

    /// The kind after both records of `owner` have been removed.
    pub open spec fn forget(self, owner: u64) -> KindView {
        KindView { first: self.first.remove(owner), second: self.second.remove(owner) }
    }

    /// The two sides agree: a moder names an entity exactly when the entity
    /// names the moder.
    pub open spec fn symmetric(self) -> bool {
        forall|moder: u64, entity: u64|
            self.forward(moder, entity) <==> self.backward(moder, entity)
    }

    /// What holds of the records of a kind at all times: none is empty, every
    /// owner lives, and there are finitely many pairs.
    pub open spec fn inv(self, live: Set<u64>) -> bool {
        &&& no_empty_record(self.first)
        &&& no_empty_record(self.second)
        &&& owners_live(self.first, live)
        &&& owners_live(self.second, live)
        &&& half_edges(self.first).finite()
        &&& half_edges(self.second).finite()
    }
}

/// The world: the live entities, the records of each relation kind, and the
/// commands that wait, the next one first.
pub struct WorldView {
    /// The bit patterns of the entities that live.
    pub live: Set<u64>,
    /// The relation kinds, each at its number.
    pub kinds: Seq<KindView>,
    /// The queue of commands.
    pub queue: Seq<CommandView>,
}

impl WorldView {
    /// A world without entities, kinds or commands.
    pub open spec fn empty() -> WorldView {
        WorldView { live: Set::empty(), kinds: Seq::empty(), queue: Seq::empty() }
    }

    /// The records of a role; no records for a role of an unknown kind.
    pub open spec fn records(self, role: Role) -> Records {
        if role.kind < self.kinds.len() {
            self.kinds[role.kind as int].records(role.side)
        } else {
            Map::empty()
        }
    }

    /// The world with other records for a role of a known kind.
    pub open spec fn with_records(self, role: Role, records: Records) -> WorldView {
        let kind = self.kinds[role.kind as int];
        let changed = match role.side {
            Side::First => KindView { first: records, ..kind },
            Side::Second => KindView { second: records, ..kind },
        };
        WorldView { kinds: self.kinds.update(role.kind as int, changed), ..self }
    }

    /// The world with another queue.
    pub open spec fn with_queue(self, queue: Seq<CommandView>) -> WorldView {
        WorldView { queue, ..self }
    }

    /// The world after a link has been applied. Nothing changes unless the
    /// kind is known and both entities live.
    pub open spec fn link(self, kind: usize, moder: u64, entity: u64) -> WorldView {
        if kind < self.kinds.len() && self.live.contains(moder) && self.live.contains(entity) {
            WorldView {
                kinds: self.kinds.update(kind as int, self.kinds[kind as int].link(moder, entity)),
                ..self
            }
        } else {
            self
        }
    }

    /// The world after an unlink has been applied. Nothing changes for an
    /// unknown kind, nor for a pair that is not related.
    pub open spec fn unlink(self, kind: usize, moder: u64, entity: u64) -> WorldView {
        if kind < self.kinds.len() {
            WorldView {
                kinds: self.kinds.update(
                    kind as int,
                    self.kinds[kind as int].unlink(moder, entity),
                ),
                ..self
            }
        } else {
            self
        }
    }

    /// The world after the record of `owner` for `role` has been removed and
    /// the cascade `tail` enqueued.
    pub open spec fn clear(self, role: Role, owner: u64, tail: Seq<CommandView>) -> WorldView {
        if role.kind < self.kinds.len() {
            WorldView {
                kinds: self.kinds.update(
                    role.kind as int,
                    self.kinds[role.kind as int].clear(role.side, owner),
                ),
                queue: self.queue + tail,
                ..self
            }
        } else {
            self.with_queue(self.queue + tail)
        }
    }

    /// Whether `after` is this world with the record of `owner` for `role`
    /// removed and a cascade for that record enqueued.
    pub open spec fn clears_to(self, role: Role, owner: u64, after: WorldView) -> bool {
        let tail = after.queue.skip(self.queue.len() as int);
        &&& self.queue.is_prefix_of(after.queue)
        &&& is_cascade(tail, role, owner, partners_of(self.records(role), owner))
        &&& after == self.clear(role, owner, tail)
    }

    /// The world after `entity` has been destroyed: it lives no more, holds
    /// no record, and the cascade `tail` is enqueued.
    pub open spec fn despawn(self, entity: u64, tail: Seq<CommandView>) -> WorldView {
        WorldView {
            live: self.live.remove(entity),
            kinds: self.kinds.map_values(|kind: KindView| kind.forget(entity)),
            queue: self.queue + tail,
        }
    }

    /// How often `command` stands in the cascade for the records that
    /// `entity` holds: once for each record of `entity` that names the other
    /// entity of the pair that `command` unlinks.
    pub open spec fn cascade_count(self, entity: u64, command: CommandView) -> nat {
        self.cascade_count_below(entity, command, self.kinds.len() as int)
    }

    /// As `cascade_count`, for the kinds below `bound` only.
    pub open spec fn cascade_count_below(
        self,
        entity: u64,
        command: CommandView,
        bound: int,
    ) -> nat {
        match command {
            CommandView::Unlink { kind, moder, entity: other } => if kind < bound && kind
                < self.kinds.len() {
                let as_moder: nat = if moder == entity && self.kinds[kind as int].forward(
                    entity,
                    other,
                ) {
                    1
                } else {
                    0
                };
                let as_entity: nat = if other == entity && self.kinds[kind as int].backward(
                    moder,
                    entity,
                ) {
                    1
                } else {
                    0
                };
                as_moder + as_entity
            } else {
                0
            },
            _ => 0,
        }
    }

    /// Whether `after` is this world with the records of `entity` removed in
    /// the kinds below `bound`, and the cascades for those records enqueued.
    pub open spec fn forgets_below(self, entity: u64, bound: int, after: WorldView) -> bool {
        let tail = after.queue.skip(self.queue.len() as int);
        &&& self.queue.is_prefix_of(after.queue)
        &&& after.live == self.live
        &&& after.kinds.len() == self.kinds.len()
        &&& forall|k: int|
            0 <= k < self.kinds.len() ==> #[trigger] after.kinds[k] == if k < bound {
                self.kinds[k].forget(entity)
            } else {
                self.kinds[k]
            }
        &&& forall|command: CommandView|
            (#[trigger] tail.to_multiset().count(command)) == self.cascade_count_below(
                entity,
                command,
                bound,
            )
        &&& after.size() + tail.len() == self.size()
    }

    /// Whether `after` is this world with all records of `entity` removed and
    /// the cascades for those records enqueued, in whatever order.
    pub open spec fn forgets(self, entity: u64, after: WorldView) -> bool {
        self.forgets_below(entity, self.kinds.len() as int, after)
    }

    /// Whether `after` is this world with `entity` destroyed and the cascades
    /// for all its records enqueued, in whatever order.
    pub open spec fn despawns_to(self, entity: u64, after: WorldView) -> bool {
        let tail = after.queue.skip(self.queue.len() as int);
        &&& self.queue.is_prefix_of(after.queue)
        &&& forall|command: CommandView|
            (#[trigger] tail.to_multiset().count(command)) == self.cascade_count(entity, command)
        &&& after.size() + tail.len() == self.size()
        &&& after == self.despawn(entity, tail)
    }

    /// Whether `after` is this world with the next command taken from the
    /// queue and applied. With nothing in the queue nothing changes.
    pub open spec fn steps_to(self, after: WorldView) -> bool {
        if self.queue.len() == 0 {
            after == self
        } else {
            let rest = self.with_queue(self.queue.drop_first());
            match self.queue[0] {
                CommandView::Link { kind, moder, entity } => after == rest.link(
                    kind,
                    moder,
                    entity,
                ),
                CommandView::Unlink { kind, moder, entity } => after == rest.unlink(
                    kind,
                    moder,
                    entity,
                ),
                CommandView::Despawn { entity } => rest.despawns_to(entity, after),
            }
        }
    }

    /// Every half of a relation whose other half is missing has an unlink of
    /// its pair waiting in the queue.
    pub open spec fn covered(self) -> bool {
        &&& forall|kind: usize, moder: u64, entity: u64|
            kind < self.kinds.len() && #[trigger] self.kinds[kind as int].forward(moder, entity)
                && !self.kinds[kind as int].backward(moder, entity) ==> self.queue.contains(
                CommandView::Unlink { kind, moder, entity },
            )
        &&& forall|kind: usize, moder: u64, entity: u64|
            kind < self.kinds.len() && #[trigger] self.kinds[kind as int].backward(moder, entity)
                && !self.kinds[kind as int].forward(moder, entity) ==> self.queue.contains(
                CommandView::Unlink { kind, moder, entity },
            )
    }

    /// What holds of the world between any two operations.
    pub open spec fn inv(self) -> bool {
        &&& self.kinds.len() <= usize::MAX
        &&& forall|entity: u64| #[trigger] self.live.contains(entity) ==> valid_bits(entity)
        &&& forall|kind: int|
            0 <= kind < self.kinds.len() ==> (#[trigger] self.kinds[kind]).inv(self.live)
        &&& self.covered()
    }

    /// Every kind is symmetric.
    pub open spec fn symmetric(self) -> bool {
        forall|kind: int| 0 <= kind < self.kinds.len() ==> (#[trigger] self.kinds[kind]).symmetric()
    }

    /// No record names an entity that does not live.
    pub open spec fn no_dangling(self) -> bool {
        forall|role: Role, owner: u64, partner: u64| #[trigger]
            holds(self.records(role), owner, partner) ==> self.live.contains(partner)
    }

    /// Whether `entity` is named by no record.
    pub open spec fn unnamed(self, entity: u64) -> bool {
        forall|role: Role, owner: u64| !#[trigger] holds(self.records(role), owner, entity)
    }
}

} // verus!

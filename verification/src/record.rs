//! Adjacency records: the set of partners that an entity holds for one role.

use crate::entity::{valid_bits, EntityId};
use crate::entity_set::{
    entity_set_contents, has_len, set_clone, set_contains, set_is_empty, set_len, set_new,
    set_to_vec,
};
use bevy_ecs::entity::EntityHashSet;
use vstd::prelude::*;

verus! {

/// What a type must offer to serve as an adjacency record: it is made from a
/// set of entities and gives that set back.
pub trait OutputEntity: Default + Clone {
    /// The bit patterns of the partners that the record names.
    spec fn partners(&self) -> Set<u64>;

    /// The record that names the entities of `entity_set`.
    fn new_self(entity_set: EntityHashSet) -> (record: Self)
        ensures
            record.partners() == entity_set_contents(entity_set),
    ;

    /// The set of the entities that the record names.
    fn entity_set(self) -> (entity_set: EntityHashSet)
        ensures
            entity_set_contents(entity_set) == self.partners(),
    ;
}

/// The adjacency record of one entity for one role. A record that the world
/// stores is never empty; one in hand may be.
pub struct AdjacencyRecord {
    set: EntityHashSet,
}

impl View for AdjacencyRecord {
    type V = Set<u64>;

    closed spec fn view(&self) -> Set<u64> {
        entity_set_contents(self.set)
    }
}

impl Default for AdjacencyRecord {
    /// The record that names nobody.
    fn default() -> (record: AdjacencyRecord)
        ensures
            record@ == Set::<u64>::empty(),
    {
        AdjacencyRecord { set: set_new() }
    }
}

impl Clone for AdjacencyRecord {
    /// A record that names the same partners.
    fn clone(&self) -> (record: AdjacencyRecord)
        ensures
            record@ == self@,
    {
        AdjacencyRecord { set: set_clone(&self.set) }
    }
}

impl OutputEntity for AdjacencyRecord {
    open spec fn partners(&self) -> Set<u64> {
        self@
    }

    fn new_self(entity_set: EntityHashSet) -> (record: AdjacencyRecord) {
        AdjacencyRecord { set: entity_set }
    }

    fn entity_set(self) -> (entity_set: EntityHashSet) {
        self.set
    }
}

impl AdjacencyRecord {
    /// Whether the record names `entity`.
    pub fn contains(&self, entity: EntityId) -> (present: bool)
        ensures
            present == self@.contains(entity@),
    {
        set_contains(&self.set, entity.to_bits())
    }

    /// The number of partners that the record names.
    pub fn len(&self) -> (count: usize)
        ensures
            has_len(self@, count as nat),
    {
        set_len(&self.set)
    }

    /// Whether the record names nobody.
    pub fn is_empty(&self) -> (vacant: bool)
        ensures
            vacant == (self@ =~= Set::<u64>::empty()),
    {
        set_is_empty(&self.set)
    }

    /// The partners that the record names, each once, in no particular order.
    pub fn to_vec(&self) -> (partners: Vec<EntityId>)
        ensures
            is_ordering(partners@, self@),
    {
        entities_of(&self.set)
    }
}

/// The bit patterns of a sequence of entities.
pub open spec fn bits_of(entities: Seq<EntityId>) -> Seq<u64> {
    entities.map_values(|entity: EntityId| entity@)
}

/// Whether `order` lists the entities of `set`, each once.
pub open spec fn is_ordering(order: Seq<EntityId>, set: Set<u64>) -> bool {
    bits_of(order).no_duplicates() && bits_of(order).to_set() == set
}

/// The entities of a set, each once, in the order in which the set hands
/// them out.
pub fn entities_of(set: &EntityHashSet) -> (entities: Vec<EntityId>)
    ensures
        is_ordering(entities@, entity_set_contents(*set)),
{
    let bits = set_to_vec(set);
    let mut entities: Vec<EntityId> = Vec::new();
    let mut i: usize = 0;
    while i < bits.len()
        invariant
            i <= bits.len(),
            entities.len() == i,
            forall|j: int| 0 <= j < i ==> (#[trigger] entities@[j])@ == bits@[j],
            forall|j: int| 0 <= j < bits@.len() ==> valid_bits(#[trigger] bits@[j]),
        decreases bits.len() - i,
    {
        entities.push(EntityId::from_valid_bits(bits[i]));
        i += 1;
    }
    proof {
        assert(bits_of(entities@) =~= bits@);
    }
    entities
}

} // verus!

//! The partner sets of adjacency records: `EntityHashSet`, spoken of through
//! the bit patterns of the entities it holds.

use crate::entity::valid_bits;
use bevy_ecs::entity::{Entity, EntityHashSet};
use vstd::prelude::*;

verus! {

/// The hash set of entities that an adjacency record stores.
#[verifier::external_type_specification]
#[verifier::external_body]
pub struct ExEntityHashSet(EntityHashSet);

/// The bit patterns of the entities that a set holds.
pub uninterp spec fn entity_set_contents(set: EntityHashSet) -> Set<u64>;

/// `EntityHashSet::new`: a set that holds nothing.
#[verifier::external_body]
pub(crate) fn set_new() -> (set: EntityHashSet)
    ensures
        entity_set_contents(set) == Set::<u64>::empty(),
{
    EntityHashSet::new()
}

/// `Clone::clone` of the set: a set with the same entities.
#[verifier::external_body]
pub(crate) fn set_clone(set: &EntityHashSet) -> (copy: EntityHashSet)
    ensures
        entity_set_contents(copy) == entity_set_contents(*set),
{
    set.clone()
}

/// `HashSet::insert`, with the entity rebuilt by `Entity::from_bits`: the set
/// then holds the entity besides what it held, and the result tells whether
/// the entity is new to it.
#[verifier::external_body]
pub(crate) fn set_insert(set: &mut EntityHashSet, bits: u64) -> (fresh: bool)
    requires
        valid_bits(bits),
    ensures
        entity_set_contents(*final(set)) == entity_set_contents(*old(set)).insert(bits),
        fresh == !entity_set_contents(*old(set)).contains(bits),
{
    set.insert(Entity::from_bits(bits))
}

/// `HashSet::remove`, with the entity rebuilt by `Entity::from_bits`: the set
/// then holds what it held but the entity, and the result tells whether the
/// entity was in it.
#[verifier::external_body]
pub(crate) fn set_remove(set: &mut EntityHashSet, bits: u64) -> (present: bool)
    requires
        valid_bits(bits),
    ensures
        entity_set_contents(*final(set)) == entity_set_contents(*old(set)).remove(bits),
        present == entity_set_contents(*old(set)).contains(bits),
{
    set.remove(&Entity::from_bits(bits))
}

/// `HashSet::contains`, with the entity rebuilt by `Entity::from_bits`.
#[verifier::external_body]
pub(crate) fn set_contains(set: &EntityHashSet, bits: u64) -> (present: bool)
    requires
        valid_bits(bits),
    ensures
        present == entity_set_contents(*set).contains(bits),
{
    set.contains(&Entity::from_bits(bits))
}

/// `EntityHashSet::is_empty`: whether the set holds no entity.
#[verifier::external_body]
pub(crate) fn set_is_empty(set: &EntityHashSet) -> (vacant: bool)
    ensures
        vacant == (entity_set_contents(*set) =~= Set::<u64>::empty()),
{
    set.is_empty()
}

/// Whether a set is finite and has `count` elements.
pub open spec fn has_len(set: Set<u64>, count: nat) -> bool {
    set.finite() && set.len() == count
}

/// `EntityHashSet::len`: the number of entities in the set, which is finite.
#[verifier::external_body]
pub(crate) fn set_len(set: &EntityHashSet) -> (count: usize)
    ensures
        has_len(entity_set_contents(*set), count as nat),
{
    set.len()
}

/// `EntityHashSet::iter`, each entity handed out as its bit pattern
/// (`Entity::to_bits`): every entity of the set comes once, in an order that
/// nothing is said about.
#[verifier::external_body]
pub(crate) fn set_to_vec(set: &EntityHashSet) -> (items: Vec<u64>)
    ensures
        items@.no_duplicates(),
        items@.to_set() == entity_set_contents(*set),
        forall|i: int| 0 <= i < items@.len() ==> valid_bits(#[trigger] items@[i]),
{
    set.iter().map(|entity| entity.to_bits()).collect()
}

} // verus!

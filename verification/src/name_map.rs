//! The map from unique names to the entities that bear them: a hash map of
//! strings and entities, spoken of through what it maps each name to.

use crate::entity::valid_bits;
use bevy_ecs::entity::Entity;
use bevy_platform::collections::HashMap;
use bevy_platform::hash::FixedHasher;
use vstd::prelude::*;

verus! {

/// The identifier of an entity, as the map stores it.
#[verifier::external_type_specification]
#[verifier::external_body]
pub struct ExEntity(Entity);

/// The hasher of the map.
#[verifier::external_type_specification]
#[verifier::external_body]
pub struct ExFixedHasher(FixedHasher);

/// The hash map.
#[verifier::external_type_specification]
#[verifier::external_body]
#[verifier::reject_recursive_types(K)]
#[verifier::reject_recursive_types(V)]
#[verifier::reject_recursive_types(S)]
pub struct ExHashMap<K, V, S>(HashMap<K, V, S>);

/// The map of names: a hash map from strings to entities.
pub type NameMap = HashMap<String, Entity, FixedHasher>;

/// What a map of names holds: for each name in it, the bit pattern of the
/// entity that it maps the name to.
pub uninterp spec fn name_map_contents(map: NameMap) -> Map<Seq<char>, u64>;

/// The map that holds no name.
pub open spec fn no_names() -> Map<Seq<char>, u64> {
    Map::empty()
}

/// `HashMap::new`: a map that holds nothing.
#[verifier::external_body]
pub(crate) fn names_new() -> (names: NameMap)
    ensures
        name_map_contents(names) == no_names(),
{
    HashMap::new()
}

/// `HashMap::get`, the entity handed out as its bit pattern
/// (`Entity::to_bits`): what the map holds for the name, if anything.
#[verifier::external_body]
pub(crate) fn names_get(map: &NameMap, name: &str) -> (bits: Option<u64>)
    ensures
        bits == (if name_map_contents(*map).dom().contains(name@) {
            Some(name_map_contents(*map)[name@])
        } else {
            None
        }),
        bits matches Some(b) ==> valid_bits(b),
{
    map.get(name).map(|entity| entity.to_bits())
}

/// `HashMap::insert`, with the name as a `String` and the entity rebuilt by
/// `Entity::from_bits`: the map then holds the entity for the name, and the
/// result is what it held for the name before.
#[verifier::external_body]
pub(crate) fn names_insert(map: &mut NameMap, name: &str, entity: u64) -> (before: Option<u64>)
    requires
        valid_bits(entity),
    ensures
        name_map_contents(*final(map)) == name_map_contents(*old(map)).insert(name@, entity),
        before == (if name_map_contents(*old(map)).dom().contains(name@) {
            Some(name_map_contents(*old(map))[name@])
        } else {
            None
        }),
{
    map.insert(name.to_owned(), Entity::from_bits(entity)).map(|entity| entity.to_bits())
}

/// `HashMap::remove`: the map then holds nothing for the name, and the
/// result is what it held for the name before.
#[verifier::external_body]
pub(crate) fn names_remove(map: &mut NameMap, name: &str) -> (before: Option<u64>)
    ensures
        name_map_contents(*final(map)) == name_map_contents(*old(map)).remove(name@),
        before == (if name_map_contents(*old(map)).dom().contains(name@) {
            Some(name_map_contents(*old(map))[name@])
        } else {
            None
        }),
{
    map.remove(name).map(|entity| entity.to_bits())
}

/// Whether a map is finite and has `count` keys.
pub open spec fn has_names(map: Map<Seq<char>, u64>, count: nat) -> bool {
    map.dom().finite() && map.dom().len() == count
}

/// `HashMap::len`: the number of names in the map, which is finite.
#[verifier::external_body]
pub(crate) fn names_len(map: &NameMap) -> (count: usize)
    ensures
        has_names(name_map_contents(*map), count as nat),
{
    map.len()
}

} // verus!

//! Unique names. At most one entity bears a name; an entity that comes with a
//! name already borne is a duplicate, whose state the host is to merge into
//! the bearer before it destroys the duplicate.

use crate::entity::EntityId;
use crate::name_map::{
    has_names, name_map_contents, names_get, names_insert, names_len, names_new, names_remove,
    no_names, NameMap,
};
use vstd::prelude::*;

verus! {

/// A unique name.
#[derive(Debug, PartialEq, Eq, Hash)]
pub struct UniqueName {
    name: String,
}

impl Clone for UniqueName {
    /// A name that reads the same.
    fn clone(&self) -> (name: UniqueName)
        ensures
            name@ == self@,
    {
        UniqueName { name: self.name.clone() }
    }
}

impl View for UniqueName {
    type V = Seq<char>;

    closed spec fn view(&self) -> Seq<char> {
        self.name@
    }
}

impl UniqueName {
    /// The name that reads `token`.
    pub fn new(token: &str) -> (name: UniqueName)
        ensures
            name@ == token@,
    {
        UniqueName { name: token.to_owned() }
    }

    /// The name as text.
    pub fn as_str(&self) -> (text: &str)
        ensures
            text@ == self@,
    {
        self.name.as_str()
    }
}

/// Search by name: for each name that is borne, the entity that bears it.
pub struct UniqueHashed {
    names: NameMap,
}

impl View for UniqueHashed {
    type V = Map<Seq<char>, u64>;

    closed spec fn view(&self) -> Map<Seq<char>, u64> {
        name_map_contents(self.names)
    }
}

impl Default for UniqueHashed {
    /// The registry in which no name is borne.
    fn default() -> (hashed: UniqueHashed)
        ensures
            hashed@ == no_names(),
    {
        UniqueHashed { names: names_new() }
    }
}

impl UniqueHashed {
    /// The entity that bears `name`, if it is borne.
    pub fn get_ent(&self, name: &str) -> (bearer: Option<EntityId>)
        ensures
            bearer is Some <==> self@.dom().contains(name@),
            bearer matches Some(entity) ==> entity@ == self@[name@],
    {
        match names_get(&self.names, name) {
            Some(bits) => Some(EntityId::from_valid_bits(bits)),
            None => None,
        }
    }

    /// The number of names that are borne.
    pub fn len(&self) -> (count: usize)
        ensures
            has_names(self@, count as nat),
    {
        names_len(&self.names)
    }
}

/// What became of an entity that was added as a unique one, and with it what
/// the host is to do.
#[derive(Clone, Copy, Debug, PartialEq, Eq, Structural)]
pub enum UniqueAdded {
    /// The entity has no name: it is to be destroyed.
    Nameless,
    /// The name is borne already, by the entity given: the state of the new
    /// entity is to be merged into the bearer, and the new entity destroyed.
    Duplicate(EntityId),
    /// The entity now bears its name.
    Registered,
}

/// The mark of an entity that is to be unique by its name.
#[derive(Clone, Copy, Debug, Default, PartialEq, Eq, Structural)]
pub struct UniqueEntity;

impl UniqueEntity {
    /// Told that `entity` has been marked unique, with the name that it has:
    /// registers it as the bearer of the name, unless it has none or the name
    /// is borne already.
    pub fn on_add(hashed: &mut UniqueHashed, name: Option<&UniqueName>, entity: EntityId) -> (added:
        UniqueAdded)
        ensures
            match name {
                None => added is Nameless && final(hashed)@ == old(hashed)@,
                Some(n) => if old(hashed)@.dom().contains(n@) {
                    &&& added matches UniqueAdded::Duplicate(bearer) && bearer@ == old(hashed)@[n@]
                    &&& final(hashed)@ == old(hashed)@
                } else {
                    &&& added is Registered
                    &&& final(hashed)@ == old(hashed)@.insert(n@, entity@)
                },
            },
    {
        let Some(name) = name else {
            return UniqueAdded::Nameless;
        };
        match hashed.get_ent(name.as_str()) {
            Some(ent_hashed) => UniqueAdded::Duplicate(ent_hashed),
            None => {
                let _ = names_insert(&mut hashed.names, name.as_str(), entity.to_bits());
                UniqueAdded::Registered
            },
        }
    }

    /// Told that the mark is taken from `entity`, with the name that it has:
    /// the name stops being borne if `entity` is its bearer. The result tells
    /// whether it was.
    pub fn on_remove(hashed: &mut UniqueHashed, name: Option<&UniqueName>, entity: EntityId) -> (freed:
        bool)
        ensures
            freed == (name matches Some(n) && old(hashed)@.dom().contains(n@) && old(hashed)@[n@]
                == entity@),
            final(hashed)@ == (if freed {
                old(hashed)@.remove(name.unwrap()@)
            } else {
                old(hashed)@
            }),
    {
        let Some(name) = name else {
            return false;
        };
        if let Some(ent_hashed) = hashed.get_ent(name.as_str()) {
            if entity.to_bits() == ent_hashed.to_bits() {
                let _ = names_remove(&mut hashed.names, name.as_str());
                return true;
            }
        }
        false
    }
}

} // verus!

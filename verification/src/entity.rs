//! Entity identifiers: opaque handles, compared and stored by their bit pattern.

use bevy_ecs::entity::Entity;
use vstd::prelude::*;

verus! {

/// Whether `bits` is the bit pattern of an entity: its low 32 bits are not all zero.
pub open spec fn valid_bits(bits: u64) -> bool {
    bits % 0x1_0000_0000 != 0
}

/// The bit pattern of the first-generation entity of a row, as
/// `Entity::from_raw_u32` followed by `Entity::to_bits` gives it.
pub uninterp spec fn row_bits(row: u32) -> u64;

/// `Entity::from_raw_u32` and `Entity::to_bits`: every row but `u32::MAX` has an
/// entity, and its bit pattern is a valid one. The pattern itself is only named.
#[verifier::external_body]
fn bits_of_row(row: u32) -> (bits: Option<u64>)
    ensures
        bits == (if row == u32::MAX {
            None
        } else {
            Some(row_bits(row))
        }),
        bits matches Some(b) ==> valid_bits(b),
{
    match Entity::from_raw_u32(row) {
        Some(entity) => Some(entity.to_bits()),
        None => None,
    }
}

/// `Entity::try_from_bits`: a bit pattern names an entity exactly when its low
/// 32 bits are not all zero.
#[verifier::external_body]
fn bits_name_entity(bits: u64) -> (named: bool)
    ensures
        named == valid_bits(bits),
{
    Entity::try_from_bits(bits).is_some()
}

/// The identifier of an entity. It is a handle only: whether the entity lives
/// is for the world to say.
#[derive(Clone, Copy, Debug, PartialEq, Eq, Hash, Structural)]
pub struct EntityId {
    bits: u64,
}

impl View for EntityId {
    type V = u64;

    closed spec fn view(&self) -> u64 {
        self.bits
    }
}

impl EntityId {
    #[verifier::type_invariant]
    spec fn well_formed(self) -> bool {
        valid_bits(self.bits)
    }

    /// The first-generation identifier of a row; `None` for `u32::MAX`, which
    /// is no row.
    pub fn from_raw_u32(row: u32) -> (id: Option<EntityId>)
        ensures
            id is Some <==> row != u32::MAX,
            id matches Some(e) ==> e@ == row_bits(row) && valid_bits(e@),
    {
        match bits_of_row(row) {
            Some(bits) => Some(EntityId { bits }),
            None => None,
        }
    }

    /// The identifier with the given bit pattern; `None` where the pattern
    /// names no entity.
    pub fn from_bits(bits: u64) -> (id: Option<EntityId>)
        ensures
            id is Some <==> valid_bits(bits),
            id matches Some(e) ==> e@ == bits,
    {
        if bits_name_entity(bits) {
            Some(EntityId { bits })
        } else {
            None
        }
    }

    /// The identifier with a bit pattern that is known to name an entity.
    pub(crate) fn from_valid_bits(bits: u64) -> (id: EntityId)
        requires
            valid_bits(bits),
        ensures
            id@ == bits,
    {
        EntityId { bits }
    }

    /// The bit pattern of the identifier.
    pub fn to_bits(self) -> (bits: u64)
        ensures
            bits == self@,
            valid_bits(bits),
    {
        proof {
            use_type_invariant(&self);
        }
        self.bits
    }
}

} // verus!

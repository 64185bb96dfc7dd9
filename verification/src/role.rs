//! Roles: the two sides of a relation kind.

use vstd::prelude::*;

verus! {

/// One of the two sides of a relation kind.
#[derive(Clone, Copy, Debug, PartialEq, Eq, Hash, Structural)]
pub enum Side {
    /// The side that a link names first.
    First,
    /// The side that a link names second.
    Second,
}

impl Side {
    /// The other side.
    pub open spec fn spec_opposite(self) -> Side {
        match self {
            Side::First => Side::Second,
            Side::Second => Side::First,
        }
    }

    /// The other side.
    #[verifier::when_used_as_spec(spec_opposite)]
    pub fn opposite(self) -> (side: Side)
        ensures
            side == self.spec_opposite(),
    {
        match self {
            Side::First => Side::Second,
            Side::Second => Side::First,
        }
    }
}

/// A role: one side of one relation kind. An entity holds, for each role, at
/// most one adjacency record.
#[derive(Clone, Copy, Debug, PartialEq, Eq, Hash, Structural)]
pub struct Role {
    /// The relation kind, as the world numbered it.
    pub kind: usize,
    /// The side of the kind.
    pub side: Side,
}

impl Role {
    /// The first role of a kind.
    pub fn first(kind: usize) -> (role: Role)
        ensures
            role == (Role { kind, side: Side::First }),
    {
        Role { kind, side: Side::First }
    }

    /// The second role of a kind.
    pub fn second(kind: usize) -> (role: Role)
        ensures
            role == (Role { kind, side: Side::Second }),
    {
        Role { kind, side: Side::Second }
    }

    /// The role that this one is paired with.
    pub open spec fn spec_partner(self) -> Role {
        Role { kind: self.kind, side: self.side.spec_opposite() }
    }

    /// The role that this one is paired with: the other side of the same kind.
    #[verifier::when_used_as_spec(spec_partner)]
    pub fn partner(self) -> (role: Role)
        ensures
            role == self.spec_partner(),
    {
        Role { kind: self.kind, side: self.side.opposite() }
    }
}

} // verus!

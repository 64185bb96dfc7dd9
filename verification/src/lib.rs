//! A symmetric many-to-many relation index over a dynamic set of entities.
//!
//! Two entities are linked under a relation kind, which pairs two roles. Each
//! entity then holds, for its role, the set of its partners, and the two
//! opposing sets are kept consistent as links are added and removed and as
//! entities are destroyed. All mutation goes through a queue of commands that
//! is drained in order.
//!
//! - [`entity`], [`entity_set`], [`record`], [`role`]: identifiers, partner
//!   sets, adjacency records and roles.
//! - [`command`], [`cascade`], [`extent`]: links and unlinks, the cascade that
//!   follows the removal of a record, and the entity-scoped commands.
//! - [`world`]: the entities that live, their records, and the apply point.
//! - [`model`], [`preserve`], [`settle`], [`bound`], [`theorems`]: the
//!   mathematical model of the world, why it stays in order, what a drain
//!   comes to, how long it takes, and what holds of every world.
//! - [`unique`], [`name_map`]: unique names and the entities that bear them.

pub mod bound;
pub mod cascade;
pub mod command;
pub mod entity;
pub mod entity_set;
pub mod extent;
pub mod model;
pub mod name_map;
pub mod preserve;
pub mod record;
pub mod role;
pub mod settle;
pub mod theorems;
pub mod unique;
pub mod world;

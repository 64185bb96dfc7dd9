use many_2_many::command::{Command, CommandQueue, RemoveMod, ShareMod};
use many_2_many::entity::EntityId;
use many_2_many::extent::{Many2Many, ModExtent};
use many_2_many::model::CommandView;
use many_2_many::role::Role;
use many_2_many::world::World;

fn spawn_empty(world: &mut World) -> EntityId {
    let row = world.entities().len() as u32;
    let entity = EntityId::from_raw_u32(row).unwrap();
    assert!(world.spawn(entity));
    entity
}

/// The number of records held for a role, and the number of partners that
/// they name together.
fn totals(world: &World, role: Role) -> (usize, usize) {
    let holders = world.holders(role);
    let mut edges = 0;
    for holder in holders.iter() {
        edges += world.get(role, *holder).unwrap().len();
    }
    assert_eq!(holders.len(), world.record_count(role));
    (holders.len(), edges)
}

fn setup(world: &mut World, kind: usize) {
    let modder_0 = spawn_empty(world);
    let modder_1 = spawn_empty(world);
    let modder_2 = spawn_empty(world);
    let ent_3 = spawn_empty(world);
    let ent_4 = spawn_empty(world);
    let ent_5 = spawn_empty(world);
    let ent_6 = spawn_empty(world);
    let ent_7 = spawn_empty(world);

    // Total valid 5 | 1 Duplicate
    world.commands().queue(Command::Link(ShareMod::new(kind, modder_0, ent_3))); // Valid
    world.commands().queue(Command::Link(ShareMod::new(kind, modder_1, ent_3))); // Valid
    world.commands().queue(Command::Link(ShareMod::new(kind, modder_0, ent_4))); // Valid
    world.commands().queue(Command::Link(ShareMod::new(kind, modder_0, ent_4))); // Duplicate
    world.commands().queue(Command::Link(ShareMod::new(kind, modder_0, ent_5))); // Valid
    world.commands().queue(Command::Link(ShareMod::new(kind, modder_1, ent_6))); // Valid

    // Remove 2 but only 1 is matched, so total valid now 4
    world.commands().queue(Command::Unlink(RemoveMod::new(kind, modder_0, ent_4))); // Valid
    world.commands().queue(Command::Unlink(RemoveMod::new(kind, modder_0, ent_6))); // Unmatched

    // Below here all not count toward
    world.commands().queue(Command::Link(ShareMod::new(kind, modder_2, ent_3))); // Moder will be despawned
    world.commands().queue(Command::Link(ShareMod::new(kind, modder_2, ent_6))); // Moder will be despawned

    world.commands().queue(Command::Link(ShareMod::new(kind, modder_0, ent_7))); // Entity 7 will be despawned

    world.commands().entity(ent_7).despawn();
    world.commands().entity(modder_2).despawn();
}

fn checkout(world: &World, kind: usize) {
    let (total_mod, total_mod_to_notif) = totals(world, Role::first(kind));
    assert_eq!(total_mod, 2);
    assert_eq!(total_mod_to_notif, 4);

    // Since ent_4 is empty, its record is removed, total will be 3
    let (total_get, total_get_notif) = totals(world, Role::second(kind));
    assert_eq!(total_get, 3);
    assert_eq!(total_get_notif, 4);
}

/// Total of the first role equal to the total of the second
#[test]
fn m_2_n_verify_total() {
    let mut world = World::new();
    let kind = world.register_kind();
    setup(&mut world, kind);
    world.apply();
    checkout(&world, kind);
}

#[test]
fn m_2_n_test_extent_mod() {
    let mut world = World::new();
    let kind = world.register_kind();
    let mod_notif = Role::first(kind);
    let mod_get_notif = Role::second(kind);

    let modder = spawn_empty(&mut world);
    let get_mod = spawn_empty(&mut world);
    world.commands().entity(modder).add_mod(&mod_notif, get_mod);
    world.apply();

    let one_mod = world.holders(mod_notif);
    let one_get_mod = world.holders(mod_get_notif);
    assert_eq!(one_mod.len(), 1);
    assert_eq!(one_get_mod.len(), 1);
    let mod_has_get = world.get(mod_notif, one_mod[0]).unwrap().contains(one_get_mod[0]);
    let get_has_mod = world.get(mod_get_notif, one_get_mod[0]).unwrap().contains(one_mod[0]);

    assert_eq!(one_mod[0], EntityId::from_raw_u32(0).unwrap());
    assert_eq!(one_get_mod[0], EntityId::from_raw_u32(1).unwrap());
    assert!(mod_has_get);
    assert!(get_has_mod);

    world.commands().entity(one_get_mod[0]).remove_mod(&mod_get_notif, one_mod[0]);
    world.apply();

    assert!(world.holders(mod_notif).is_empty());
    assert!(world.holders(mod_get_notif).is_empty());
}

/// A role tag that names the role of the partner, not of the entity that the
/// command is scoped to.
struct ModNotif(usize);

/// The tag of the opposite role, in the same manner.
struct ModGetNotif(usize);

impl ModExtent for ModNotif {
    fn link_of(&self, ent_1: u64, ent_2: u64) -> CommandView {
        CommandView::Link { kind: self.0, moder: ent_2, entity: ent_1 }
    }

    fn unlink_of(&self, ent_1: u64, ent_2: u64) -> CommandView {
        CommandView::Unlink { kind: self.0, moder: ent_2, entity: ent_1 }
    }

    fn add_it(&self, cmd: &mut CommandQueue, ent_1: EntityId, ent_2: EntityId) {
        cmd.queue(Command::Link(ShareMod::new(self.0, ent_2, ent_1)));
    }

    fn remove_it(&self, cmd: &mut CommandQueue, ent_1: EntityId, ent_2: EntityId) {
        cmd.queue(Command::Unlink(RemoveMod::new(self.0, ent_2, ent_1)));
    }
}

impl ModExtent for ModGetNotif {
    fn link_of(&self, ent_1: u64, ent_2: u64) -> CommandView {
        CommandView::Link { kind: self.0, moder: ent_1, entity: ent_2 }
    }

    fn unlink_of(&self, ent_1: u64, ent_2: u64) -> CommandView {
        CommandView::Unlink { kind: self.0, moder: ent_1, entity: ent_2 }
    }

    fn add_it(&self, cmd: &mut CommandQueue, ent_1: EntityId, ent_2: EntityId) {
        cmd.queue(Command::Link(ShareMod::new(self.0, ent_1, ent_2)));
    }

    fn remove_it(&self, cmd: &mut CommandQueue, ent_1: EntityId, ent_2: EntityId) {
        cmd.queue(Command::Unlink(RemoveMod::new(self.0, ent_1, ent_2)));
    }
}

/// Total of the first role equal to the total of the second
#[test]
fn tested_verify_total() {
    let mut world = World::new();
    let kind = world.register_kind();
    setup(&mut world, kind);
    world.apply();
    checkout(&world, kind);
}

#[test]
fn tested_test_extent_mod() {
    let mut world = World::new();
    let kind = world.register_kind();

    let modder = spawn_empty(&mut world);
    let get_mod = spawn_empty(&mut world);
    world.commands().entity(modder).add_mod(&ModGetNotif(kind), get_mod);
    world.apply();

    let one_mod = world.holders(Role::first(kind));
    let one_get_mod = world.holders(Role::second(kind));
    assert_eq!(one_mod.len(), 1);
    assert_eq!(one_get_mod.len(), 1);
    let mod_has_get = world.get(Role::first(kind), one_mod[0]).unwrap().contains(one_get_mod[0]);
    let get_has_mod = world.get(Role::second(kind), one_get_mod[0]).unwrap().contains(one_mod[0]);

    assert_eq!(one_mod[0], EntityId::from_raw_u32(0).unwrap());
    assert_eq!(one_get_mod[0], EntityId::from_raw_u32(1).unwrap());
    assert!(mod_has_get);
    assert!(get_has_mod);

    world.commands().entity(one_get_mod[0]).remove_mod(&ModNotif(kind), one_mod[0]);
    world.apply();

    assert!(world.holders(Role::first(kind)).is_empty());
    assert!(world.holders(Role::second(kind)).is_empty());
}

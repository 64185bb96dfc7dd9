use many_2_many::command::{Command, RemoveMod, ShareMod};
use many_2_many::entity::EntityId;
use many_2_many::extent::Many2Many;
use many_2_many::role::Role;
use many_2_many::world::World;

fn id(row: u32) -> EntityId {
    EntityId::from_raw_u32(row).unwrap()
}

/// A world with one kind and the entities of the rows below `rows`.
fn world_of(rows: u32) -> (World, usize) {
    let mut world = World::new();
    let kind = world.register_kind();
    for row in 0..rows {
        assert!(world.spawn(id(row)));
    }
    (world, kind)
}

fn row_of(entity: EntityId) -> u32 {
    (0..64).find(|row| id(*row) == entity).unwrap()
}

/// The rows of the partners that `owner` has in `role`, in order.
fn partners(world: &World, role: Role, owner: EntityId) -> Vec<u32> {
    let mut rows: Vec<u32> = match world.get(role, owner) {
        Some(record) => record.to_vec().into_iter().map(row_of).collect(),
        None => Vec::new(),
    };
    rows.sort();
    rows
}

/// The records that are held, in order: the kind, whether the role is the
/// first one, the row of the owner, and the rows of its partners.
fn snapshot(world: &World) -> Vec<(usize, bool, u32, Vec<u32>)> {
    let mut all = Vec::new();
    for kind in 0..world.kind_count() {
        for (first, role) in [(true, Role::first(kind)), (false, Role::second(kind))] {
            for owner in world.holders(role) {
                all.push((kind, first, row_of(owner), partners(world, role, owner)));
            }
        }
    }
    all.sort();
    all
}

fn assert_consistent(world: &World) {
    assert_eq!(world.pending(), 0);
    for kind in 0..world.kind_count() {
        let first = Role::first(kind);
        let second = Role::second(kind);
        for role in [first, second] {
            assert_eq!(world.holders(role).len(), world.record_count(role));
            for owner in world.holders(role) {
                let record = world.get(role, owner).unwrap();
                assert!(!record.is_empty());
                assert!(world.contains(owner));
                for partner in record.to_vec() {
                    assert!(world.contains(partner));
                    assert!(world.get(role.partner(), partner).unwrap().contains(owner));
                }
            }
        }
    }
}

fn drain_counting(world: &mut World) -> usize {
    let mut steps = 0;
    while world.step() {
        steps += 1;
    }
    steps
}

#[test]
fn a_new_world_is_empty() {
    let mut world = World::new();
    assert_eq!(world.kind_count(), 0);
    assert!(world.entities().is_empty());
    assert_eq!(world.pending(), 0);
    assert!(!world.step());
    world.apply();
    assert!(!world.contains(id(0)));
    assert!(world.get(Role::first(0), id(0)).is_none());
    assert_eq!(world.record_count(Role::first(0)), 0);
    assert!(world.holders(Role::second(3)).is_empty());
    assert_eq!(world.register_kind(), 0);
    assert_eq!(world.register_kind(), 1);
    assert_eq!(world.kind_count(), 2);
}

#[test]
fn spawning_makes_an_entity_live_once() {
    let mut world = World::new();
    assert!(!world.contains(id(3)));
    assert!(world.spawn(id(3)));
    assert!(world.contains(id(3)));
    assert!(!world.spawn(id(3)));
    assert_eq!(world.entities(), vec![id(3)]);
    assert!(world.despawn(id(3)));
    assert!(!world.contains(id(3)));
    assert!(!world.despawn(id(3)));
    assert!(world.entities().is_empty());
}

#[test]
fn a_link_relates_both_sides() {
    let (mut world, kind) = world_of(2);
    world.commands().link(kind, id(0), id(1));
    assert!(world.get(Role::first(kind), id(0)).is_none());
    world.apply();
    assert_eq!(partners(&world, Role::first(kind), id(0)), vec![1]);
    assert_eq!(partners(&world, Role::second(kind), id(1)), vec![0]);
    assert!(world.get(Role::second(kind), id(0)).is_none());
    assert!(world.get(Role::first(kind), id(1)).is_none());
    assert_consistent(&world);
}

#[test]
fn both_sides_agree_after_a_drain() {
    let (mut world, kind) = world_of(6);
    let other = world.register_kind();
    for (moder, entity) in [(0, 1), (0, 2), (3, 1), (4, 4), (5, 0), (2, 0)] {
        world.commands().link(kind, id(moder), id(entity));
        world.commands().link(other, id(entity), id(moder));
    }
    world.commands().unlink(kind, id(0), id(2));
    world.commands().unlink(other, id(1), id(3));
    world.commands().unlink(kind, id(1), id(0));
    world.commands().entity(id(4)).despawn();
    world.commands().link(kind, id(4), id(5));
    world.commands().link(kind, id(5), id(3));
    world.apply();
    assert_consistent(&world);
    assert_eq!(
        snapshot(&world),
        vec![
            (kind, false, 0, vec![2, 5]),
            (kind, false, 1, vec![0, 3]),
            (kind, false, 3, vec![5]),
            (kind, true, 0, vec![1]),
            (kind, true, 2, vec![0]),
            (kind, true, 3, vec![1]),
            (kind, true, 5, vec![0, 3]),
            (other, false, 0, vec![1, 2]),
            (other, false, 2, vec![0]),
            (other, false, 5, vec![0]),
            (other, true, 0, vec![2, 5]),
            (other, true, 1, vec![0]),
            (other, true, 2, vec![0]),
        ]
    );
}

#[test]
fn repeating_a_link_changes_nothing() {
    let (mut once, kind) = world_of(3);
    once.commands().link(kind, id(0), id(1));
    once.apply();

    let (mut often, _) = world_of(3);
    for _ in 0..5 {
        often.commands().link(kind, id(0), id(1));
    }
    often.apply();
    often.commands().link(kind, id(0), id(1));
    often.apply();
    ShareMod::new(kind, id(0), id(1)).apply(&mut often);

    assert_eq!(snapshot(&once), snapshot(&often));
    assert_eq!(partners(&often, Role::first(kind), id(0)), vec![1]);
    assert_eq!(often.get(Role::first(kind), id(0)).unwrap().len(), 1);
    assert_consistent(&often);
}

#[test]
fn a_destroyed_entity_is_named_by_nobody() {
    let (mut world, kind) = world_of(5);
    let other = world.register_kind();
    for partner in 1..5 {
        world.commands().link(kind, id(0), id(partner));
        world.commands().link(kind, id(partner), id(0));
        world.commands().link(other, id(partner), id(0));
    }
    world.apply();
    assert_eq!(world.get(Role::first(kind), id(0)).unwrap().len(), 4);

    world.commands().entity(id(0)).despawn();
    world.commands().link(kind, id(0), id(1));
    world.commands().link(kind, id(2), id(0));
    world.apply();

    assert!(!world.contains(id(0)));
    assert!(snapshot(&world).iter().all(|record| record.2 != 0 && !record.3.contains(&0)));
    assert!(snapshot(&world).is_empty());
    assert_consistent(&world);
}

#[test]
fn destroying_leaves_the_relations_of_others() {
    let (mut world, kind) = world_of(4);
    world.commands().link(kind, id(0), id(1));
    world.commands().link(kind, id(0), id(2));
    world.commands().link(kind, id(3), id(2));
    world.apply();
    assert!(world.despawn(id(0)));
    assert_eq!(world.pending(), 2);
    assert_eq!(partners(&world, Role::second(kind), id(1)), vec![0]);
    world.apply();
    assert!(world.get(Role::second(kind), id(1)).is_none());
    assert_eq!(partners(&world, Role::second(kind), id(2)), vec![3]);
    assert_eq!(partners(&world, Role::first(kind), id(3)), vec![2]);
    assert_consistent(&world);
}

#[test]
fn clearing_all_records_leaves_the_entity_unnamed_and_live() {
    let (mut world, kind) = world_of(4);
    world.commands().link(kind, id(0), id(1));
    world.commands().link(kind, id(0), id(2));
    world.commands().link(kind, id(3), id(0));
    world.apply();
    world.clear_records(id(0));
    assert!(world.contains(id(0)));
    assert!(world.get(Role::first(kind), id(0)).is_none());
    assert!(world.get(Role::second(kind), id(0)).is_none());
    assert_eq!(world.pending(), 3);
    world.apply();
    assert!(snapshot(&world).is_empty());
    assert!(world.contains(id(0)));
    assert_consistent(&world);
}

#[test]
fn clearing_one_record_unlinks_its_partners() {
    let (mut world, kind) = world_of(4);
    world.commands().link(kind, id(0), id(1));
    world.commands().link(kind, id(0), id(2));
    world.commands().link(kind, id(3), id(0));
    world.commands().link(kind, id(3), id(1));
    world.apply();
    assert!(world.clear_record(Role::first(kind), id(0)));
    assert!(!world.clear_record(Role::first(kind), id(0)));
    assert!(!world.clear_record(Role::first(kind + 1), id(0)));
    assert_eq!(world.pending(), 2);
    world.apply();
    assert!(world.get(Role::first(kind), id(0)).is_none());
    assert!(world.get(Role::second(kind), id(2)).is_none());
    assert_eq!(partners(&world, Role::second(kind), id(1)), vec![3]);
    assert_eq!(partners(&world, Role::second(kind), id(0)), vec![3]);
    assert_consistent(&world);
}

#[test]
fn a_link_that_waits_relates_a_cleared_entity_again() {
    let (mut world, kind) = world_of(3);
    world.commands().link(kind, id(0), id(1));
    world.apply();
    world.commands().link(kind, id(0), id(2));
    world.clear_records(id(0));
    world.apply();
    assert_eq!(partners(&world, Role::second(kind), id(2)), vec![0]);
    assert!(world.get(Role::second(kind), id(1)).is_none());
    assert_consistent(&world);
}

#[test]
fn an_emptied_record_is_removed() {
    let (mut world, kind) = world_of(3);
    world.commands().link(kind, id(0), id(1));
    world.commands().link(kind, id(0), id(2));
    world.apply();
    assert_eq!(world.record_count(Role::first(kind)), 1);
    assert_eq!(world.record_count(Role::second(kind)), 2);

    world.commands().unlink(kind, id(0), id(1));
    world.apply();
    assert_eq!(world.get(Role::first(kind), id(0)).unwrap().len(), 1);
    assert!(world.get(Role::second(kind), id(1)).is_none());
    assert_eq!(world.record_count(Role::second(kind)), 1);

    RemoveMod::new(kind, id(0), id(2)).apply(&mut world);
    assert!(world.get(Role::first(kind), id(0)).is_none());
    assert!(world.get(Role::second(kind), id(2)).is_none());
    assert_eq!(world.record_count(Role::first(kind)), 0);
    assert_eq!(world.record_count(Role::second(kind)), 0);
    assert_eq!(world.pending(), 0);
    assert_consistent(&world);
}

#[test]
fn the_steps_of_a_drain_are_bounded() {
    let (mut world, kind) = world_of(8);
    let links = [(0, 3), (1, 3), (0, 4), (0, 4), (0, 5), (1, 6), (2, 3), (2, 6), (0, 7)];
    for (moder, entity) in links {
        world.commands().link(kind, id(moder), id(entity));
    }
    world.commands().unlink(kind, id(0), id(4));
    world.commands().unlink(kind, id(0), id(6));
    world.commands().entity(id(7)).despawn();
    world.commands().entity(id(2)).despawn();
    // 13 commands wait, 9 of them links, and the records hold nothing.
    let bound = 13 + 2 * 9;
    assert_eq!(world.pending(), 13);
    // The entity of row 7 names one partner when it is destroyed, the entity
    // of row 2 two: three unlinks follow the 13 commands.
    let steps = drain_counting(&mut world);
    assert_eq!(steps, 16);
    assert!(steps <= bound);
    assert_eq!(drain_counting(&mut world), 0);
    assert_consistent(&world);
}

#[test]
fn a_step_applies_the_next_command_only() {
    let (mut world, kind) = world_of(3);
    world.commands().link(kind, id(0), id(1));
    world.commands().link(kind, id(0), id(2));
    world.commands().entity(id(0)).despawn();
    assert!(world.step());
    assert_eq!(partners(&world, Role::first(kind), id(0)), vec![1]);
    assert_eq!(world.pending(), 2);
    assert!(world.step());
    assert_eq!(world.get(Role::first(kind), id(0)).unwrap().len(), 2);
    assert!(world.step());
    assert!(!world.contains(id(0)));
    assert!(world.get(Role::first(kind), id(0)).is_none());
    assert_eq!(partners(&world, Role::second(kind), id(1)), vec![0]);
    assert_eq!(world.pending(), 2);
    for place in 0..2 {
        match world.commands().get(place) {
            Some(Command::Unlink(unlink)) => {
                assert_eq!(unlink.kind(), kind);
                assert_eq!(unlink.moder(), id(0));
                assert!(unlink.entity() == id(1) || unlink.entity() == id(2));
            }
            other => panic!("not an unlink: {:?}", other),
        }
    }
    assert!(world.step());
    assert!(world.step());
    assert!(!world.step());
    assert!(snapshot(&world).is_empty());
}

#[test]
fn linking_then_destroying_leaves_no_record() {
    let (mut world, kind) = world_of(2);
    let a = id(0);
    let b = id(1);
    world.commands().link(kind, a, b);
    world.commands().entity(b).despawn();
    world.apply();
    assert!(world.get(Role::first(kind), a).is_none());
    assert_eq!(world.record_count(Role::first(kind)), 0);
    assert_eq!(world.record_count(Role::second(kind)), 0);
    assert!(world.contains(a));
    assert!(!world.contains(b));
}

#[test]
fn unlinking_what_was_never_linked_changes_nothing() {
    let (mut world, kind) = world_of(4);
    world.commands().link(kind, id(0), id(1));
    world.apply();
    let before = snapshot(&world);

    world.commands().unlink(kind, id(2), id(3));
    world.commands().unlink(kind, id(0), id(3));
    world.commands().unlink(kind, id(2), id(1));
    world.commands().unlink(kind, id(1), id(0));
    world.commands().unlink(kind + 1, id(0), id(1));
    world.commands().unlink(kind, id(0), id(9));
    assert_eq!(drain_counting(&mut world), 6);

    assert_eq!(snapshot(&world), before);
    assert!(world.get(Role::first(kind), id(2)).is_none());
    assert!(world.get(Role::second(kind), id(3)).is_none());
    assert_eq!(partners(&world, Role::first(kind), id(0)), vec![1]);
    assert_eq!(partners(&world, Role::second(kind), id(1)), vec![0]);
}

#[test]
fn a_link_with_an_entity_that_does_not_live_is_dropped() {
    let (mut world, kind) = world_of(2);
    world.commands().link(kind, id(0), id(5));
    world.commands().link(kind, id(5), id(1));
    world.commands().link(kind, id(6), id(7));
    world.commands().link(kind + 1, id(0), id(1));
    world.apply();
    assert!(snapshot(&world).is_empty());
    assert!(!world.contains(id(5)));
}

#[test]
fn an_entity_may_be_linked_to_itself() {
    let (mut world, kind) = world_of(2);
    world.commands().link(kind, id(0), id(0));
    world.commands().link(kind, id(0), id(1));
    world.apply();
    assert_eq!(partners(&world, Role::first(kind), id(0)), vec![0, 1]);
    assert_eq!(partners(&world, Role::second(kind), id(0)), vec![0]);
    assert_consistent(&world);
    world.commands().entity(id(0)).despawn();
    // One command, and one unlink for each of the three partners named.
    assert_eq!(drain_counting(&mut world), 4);
    assert!(snapshot(&world).is_empty());
}

#[test]
fn kinds_do_not_touch_each_other() {
    let (mut world, kind) = world_of(3);
    let other = world.register_kind();
    world.commands().link(kind, id(0), id(1));
    world.commands().link(other, id(1), id(0));
    world.commands().link(other, id(0), id(1));
    world.commands().unlink(other, id(0), id(1));
    world.apply();
    assert_eq!(partners(&world, Role::first(kind), id(0)), vec![1]);
    assert_eq!(partners(&world, Role::first(other), id(1)), vec![0]);
    assert!(world.get(Role::first(other), id(0)).is_none());
    assert_consistent(&world);
}

#[test]
fn an_unlink_does_not_undo_a_later_link() {
    let (mut world, kind) = world_of(2);
    world.commands().link(kind, id(0), id(1));
    world.apply();
    world.commands().unlink(kind, id(0), id(1));
    world.commands().link(kind, id(0), id(1));
    assert_eq!(drain_counting(&mut world), 2);
    assert_eq!(partners(&world, Role::first(kind), id(0)), vec![1]);
    assert_consistent(&world);
}

#[test]
fn an_entity_that_lives_again_is_related_anew() {
    let (mut world, kind) = world_of(2);
    world.commands().link(kind, id(0), id(1));
    world.apply();
    assert!(world.despawn(id(0)));
    assert!(world.spawn(id(0)));
    world.commands().link(kind, id(0), id(1));
    world.apply();
    assert_eq!(partners(&world, Role::second(kind), id(1)), vec![0]);
    assert_consistent(&world);
}

#[test]
fn a_handle_links_in_the_role_given() {
    let (mut world, kind) = world_of(3);
    world.commands().entity(id(0)).add_mod(&Role::first(kind), id(1));
    world.commands().entity(id(0)).add_mod(&Role::second(kind), id(2));
    world.apply();
    assert_eq!(partners(&world, Role::first(kind), id(0)), vec![1]);
    assert_eq!(partners(&world, Role::second(kind), id(0)), vec![2]);
    assert_eq!(partners(&world, Role::first(kind), id(2)), vec![0]);
    world.commands().entity(id(0)).remove_mod(&Role::second(kind), id(2));
    world.commands().entity(id(1)).remove_mod(&Role::second(kind), id(0));
    world.apply();
    assert!(snapshot(&world).is_empty());
}

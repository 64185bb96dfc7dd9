use bevy_ecs::entity::{Entity, EntityHashSet};
use many_2_many::command::{Command, CommandQueue, RemoveMod, ShareMod};
use many_2_many::entity::EntityId;
use many_2_many::extent::ModExtent;
use many_2_many::record::{entities_of, AdjacencyRecord, OutputEntity};
use many_2_many::role::{Role, Side};

fn id(row: u32) -> EntityId {
    EntityId::from_raw_u32(row).unwrap()
}

fn sorted_bits(entities: Vec<EntityId>) -> Vec<u64> {
    let mut bits: Vec<u64> = entities.into_iter().map(|entity| entity.to_bits()).collect();
    bits.sort();
    bits
}

#[test]
fn every_row_but_the_last_has_an_identifier() {
    assert!(EntityId::from_raw_u32(0).is_some());
    assert!(EntityId::from_raw_u32(u32::MAX - 1).is_some());
    assert!(EntityId::from_raw_u32(u32::MAX).is_none());
}

#[test]
fn the_bits_of_a_row_are_those_of_its_entity() {
    for row in [0u32, 1, 5, 77, u32::MAX - 1] {
        let entity = Entity::from_raw_u32(row).unwrap();
        assert_eq!(id(row).to_bits(), entity.to_bits());
    }
    assert_ne!(id(5).to_bits(), 5);
    assert_ne!(id(3), id(4));
    assert_eq!(id(3), id(3));
}

#[test]
fn bits_name_an_entity_unless_their_low_half_is_zero() {
    assert!(EntityId::from_bits(0).is_none());
    assert!(EntityId::from_bits(0x0000_0001_0000_0000).is_none());
    assert!(EntityId::from_bits(0xffff_ffff_0000_0000).is_none());
    assert_eq!(EntityId::from_bits(1).unwrap().to_bits(), 1);
    assert_eq!(EntityId::from_bits(0x0000_0007_0000_0003).unwrap().to_bits(), 0x0000_0007_0000_0003);
    assert_eq!(EntityId::from_bits(u64::MAX).unwrap().to_bits(), u64::MAX);
    let entity = Entity::from_raw_u32(9).unwrap();
    assert_eq!(EntityId::from_bits(entity.to_bits()), Some(id(9)));
    assert_eq!(Entity::from_bits(id(9).to_bits()), entity);
}

#[test]
fn a_record_names_the_entities_of_its_set() {
    let mut set = EntityHashSet::new();
    set.insert(Entity::from_raw_u32(3).unwrap());
    set.insert(Entity::from_raw_u32(8).unwrap());
    let record = AdjacencyRecord::new_self(set);
    assert_eq!(record.len(), 2);
    assert!(!record.is_empty());
    assert!(record.contains(id(3)));
    assert!(record.contains(id(8)));
    assert!(!record.contains(id(4)));
    assert_eq!(sorted_bits(record.to_vec()), sorted_bits(vec![id(3), id(8)]));

    let copy = record.clone();
    let set = record.entity_set();
    assert_eq!(set.len(), 2);
    assert!(set.contains(&Entity::from_raw_u32(3).unwrap()));
    assert!(set.contains(&Entity::from_raw_u32(8).unwrap()));
    assert_eq!(copy.len(), 2);
    assert!(copy.contains(id(8)));
}

#[test]
fn the_default_record_names_nobody() {
    let record = AdjacencyRecord::default();
    assert!(record.is_empty());
    assert_eq!(record.len(), 0);
    assert!(record.to_vec().is_empty());
    assert!(!record.contains(id(0)));
    assert!(record.entity_set().is_empty());
}

#[test]
fn the_entities_of_a_set_come_each_once() {
    let mut set = EntityHashSet::new();
    for row in 0..40u32 {
        set.insert(Entity::from_raw_u32(row).unwrap());
        set.insert(Entity::from_raw_u32(row).unwrap());
    }
    let entities = entities_of(&set);
    assert_eq!(entities.len(), 40);
    assert_eq!(sorted_bits(entities), sorted_bits((0..40).map(id).collect()));
}

#[test]
fn roles_are_partners_of_each_other() {
    let first = Role::first(2);
    let second = Role::second(2);
    assert_eq!(first, Role { kind: 2, side: Side::First });
    assert_eq!(second, Role { kind: 2, side: Side::Second });
    assert_eq!(first.partner(), second);
    assert_eq!(second.partner(), first);
    assert_eq!(first.partner().partner(), first);
    assert_eq!(Side::First.opposite(), Side::Second);
    assert_eq!(Side::Second.opposite(), Side::First);
}

#[test]
fn a_role_directs_the_pair_of_its_commands() {
    let first = Role::first(1);
    let second = Role::second(1);
    assert_eq!(first.link(id(0), id(1)), ShareMod::new(1, id(0), id(1)));
    assert_eq!(second.link(id(0), id(1)), ShareMod::new(1, id(1), id(0)));
    assert_eq!(first.unlink(id(0), id(1)), RemoveMod::new(1, id(0), id(1)));
    assert_eq!(second.unlink(id(0), id(1)), RemoveMod::new(1, id(1), id(0)));

    let link = ShareMod::new(4, id(2), id(3));
    assert_eq!((link.kind(), link.moder(), link.entity()), (4, id(2), id(3)));
    let unlink = RemoveMod::new(5, id(6), id(7));
    assert_eq!((unlink.kind(), unlink.moder(), unlink.entity()), (5, id(6), id(7)));
}

#[test]
fn the_queue_keeps_the_order_of_arrival() {
    let mut queue = CommandQueue::new();
    assert!(queue.is_empty());
    assert_eq!(queue.len(), 0);
    assert_eq!(queue.get(0), None);

    queue.link(0, id(0), id(1));
    queue.unlink(1, id(2), id(3));
    queue.queue(Command::Despawn(id(4)));
    queue.entity(id(5)).despawn();
    Role::second(2).add_it(&mut queue, id(6), id(7));
    Role::second(2).remove_it(&mut queue, id(6), id(7));
    Role::first(2).add_it(&mut queue, id(6), id(7));
    Role::first(2).remove_it(&mut queue, id(6), id(7));

    assert!(!queue.is_empty());
    assert_eq!(queue.len(), 8);
    assert_eq!(queue.get(0), Some(Command::Link(ShareMod::new(0, id(0), id(1)))));
    assert_eq!(queue.get(1), Some(Command::Unlink(RemoveMod::new(1, id(2), id(3)))));
    assert_eq!(queue.get(2), Some(Command::Despawn(id(4))));
    assert_eq!(queue.get(3), Some(Command::Despawn(id(5))));
    assert_eq!(queue.get(4), Some(Command::Link(ShareMod::new(2, id(7), id(6)))));
    assert_eq!(queue.get(5), Some(Command::Unlink(RemoveMod::new(2, id(7), id(6)))));
    assert_eq!(queue.get(6), Some(Command::Link(ShareMod::new(2, id(6), id(7)))));
    assert_eq!(queue.get(7), Some(Command::Unlink(RemoveMod::new(2, id(6), id(7)))));
    assert_eq!(queue.get(8), None);
}

#[test]
fn a_handle_knows_its_entity() {
    let mut queue = CommandQueue::new();
    let handle = queue.entity(id(12));
    assert_eq!(handle.id(), id(12));
    assert_eq!(handle.commands.len(), 0);
}

#[test]
fn a_cascade_unlinks_each_partner_in_turn() {
    let mut queue = CommandQueue::new();
    queue.link(0, id(9), id(9));
    let partners = vec![id(3), id(1), id(2)];
    Role::first(7).cascade(&mut queue, id(0), &partners);
    Role::second(7).cascade(&mut queue, id(0), &partners);
    Role::second(7).cascade(&mut queue, id(0), &Vec::new());
    assert_eq!(queue.len(), 7);
    assert_eq!(queue.get(1), Some(Command::Unlink(RemoveMod::new(7, id(0), id(3)))));
    assert_eq!(queue.get(2), Some(Command::Unlink(RemoveMod::new(7, id(0), id(1)))));
    assert_eq!(queue.get(3), Some(Command::Unlink(RemoveMod::new(7, id(0), id(2)))));
    assert_eq!(queue.get(4), Some(Command::Unlink(RemoveMod::new(7, id(3), id(0)))));
    assert_eq!(queue.get(5), Some(Command::Unlink(RemoveMod::new(7, id(1), id(0)))));
    assert_eq!(queue.get(6), Some(Command::Unlink(RemoveMod::new(7, id(2), id(0)))));
}

#[test]
fn the_trigger_enqueues_one_unlink_for_each_partner() {
    let mut set = EntityHashSet::new();
    for row in [4u32, 5, 6] {
        set.insert(Entity::from_raw_u32(row).unwrap());
    }
    let record = AdjacencyRecord::new_self(set);
    let mut queue = CommandQueue::new();
    queue.queue(Command::Despawn(id(1)));
    Role::second(3).on_remove(&mut queue, id(1), &record);
    assert_eq!(queue.len(), 4);
    assert_eq!(queue.get(0), Some(Command::Despawn(id(1))));
    let mut moders = Vec::new();
    for place in 1..4 {
        match queue.get(place) {
            Some(Command::Unlink(unlink)) => {
                assert_eq!(unlink.kind(), 3);
                assert_eq!(unlink.entity(), id(1));
                moders.push(unlink.moder());
            }
            other => panic!("not an unlink: {:?}", other),
        }
    }
    assert_eq!(sorted_bits(moders), sorted_bits(vec![id(4), id(5), id(6)]));

    let mut untouched = CommandQueue::new();
    Role::first(3).on_remove(&mut untouched, id(1), &AdjacencyRecord::default());
    assert!(untouched.is_empty());
}

use many_2_many::entity::EntityId;
use many_2_many::unique::{UniqueAdded, UniqueEntity, UniqueHashed, UniqueName};

/// The state that the host keeps for an entity.
#[derive(Clone, Default)]
struct Spawned {
    name: Option<UniqueName>,
    a: Option<u8>,
    b: Option<u8>,
    c: Option<f32>,
    duplicate: bool,
    live: bool,
}

/// A host that keeps entities by row and registers them by name.
struct Host {
    hashed: UniqueHashed,
    entities: Vec<Spawned>,
}

impl Host {
    fn new() -> Host {
        Host { hashed: UniqueHashed::default(), entities: Vec::new() }
    }

    fn id(row: usize) -> EntityId {
        EntityId::from_raw_u32(row as u32).unwrap()
    }

    fn row(&self, entity: EntityId) -> usize {
        (0..self.entities.len()).find(|row| Host::id(*row) == entity).unwrap()
    }

    fn spawn(&mut self, name: &str, a: Option<u8>, b: Option<u8>, c: Option<f32>) -> EntityId {
        let row = self.entities.len();
        let entity = Host::id(row);
        let name = UniqueName::new(name);
        let mut spawned = Spawned { name: Some(name.clone()), a, b, c, duplicate: false, live: true };
        match UniqueEntity::on_add(&mut self.hashed, Some(&name), entity) {
            UniqueAdded::Nameless => spawned.live = false,
            UniqueAdded::Duplicate(bearer) => {
                let bearer = self.row(bearer);
                if a.is_some() {
                    self.entities[bearer].a = a;
                }
                if b.is_some() {
                    self.entities[bearer].b = b;
                }
                if c.is_some() {
                    self.entities[bearer].c = c;
                }
                spawned.duplicate = true;
            }
            UniqueAdded::Registered => {}
        }
        self.entities.push(spawned);
        entity
    }

    fn despawn(&mut self, entity: EntityId) {
        let row = self.row(entity);
        let name = self.entities[row].name.clone();
        UniqueEntity::on_remove(&mut self.hashed, name.as_ref(), entity);
        self.entities[row].live = false;
    }

    fn delete_unique(&mut self) {
        for row in 0..self.entities.len() {
            if self.entities[row].live && self.entities[row].duplicate {
                self.despawn(Host::id(row));
            }
        }
    }
}

#[test]
fn test_unique() {
    let mut host = Host::new();
    host.spawn("Test_1", Some(10), None, None);
    host.spawn("Test_1", None, Some(5), None);
    host.spawn("Test_1", None, None, Some(5.05));

    host.spawn("Test_2", Some(100), None, None);
    host.spawn("Test_2", None, Some(55), None);
    host.spawn("Test_2", None, None, Some(56.25));

    host.spawn("Test_3", None, Some(60), None);

    let ent_1 = host.spawn("Test_4", Some(100), None, None);
    let ent_2 = host.spawn("Test_5", None, Some(58), None);

    assert_eq!(host.hashed.len(), 5);

    host.despawn(ent_1);
    host.despawn(ent_2);
    host.delete_unique();

    let out_ent: Vec<&Spawned> = host.entities.iter().filter(|spawned| spawned.live).collect();
    assert_eq!(out_ent.len(), 3);

    let out_b: Vec<&&Spawned> =
        out_ent.iter().filter(|s| s.b.is_some() && s.a.is_none() && s.c.is_none()).collect();
    assert_eq!(out_b.len(), 1);
    assert_eq!(out_b[0].b, Some(60));

    let out = out_ent.iter().filter(|s| s.a.is_some() && s.b.is_some() && s.c.is_some());
    assert_eq!(out.count(), 2);

    assert_eq!(host.hashed.len(), 3);
}

#[test]
fn a_name_is_borne_by_the_first_entity_that_comes_with_it() {
    let mut hashed = UniqueHashed::default();
    let first = EntityId::from_raw_u32(0).unwrap();
    let second = EntityId::from_raw_u32(1).unwrap();
    let name = UniqueName::new("Gate");
    assert_eq!(name.as_str(), "Gate");
    assert_eq!(hashed.get_ent("Gate"), None);
    assert_eq!(UniqueEntity::on_add(&mut hashed, Some(&name), first), UniqueAdded::Registered);
    assert_eq!(hashed.get_ent("Gate"), Some(first));
    assert_eq!(
        UniqueEntity::on_add(&mut hashed, Some(&name), second),
        UniqueAdded::Duplicate(first)
    );
    assert_eq!(hashed.get_ent("Gate"), Some(first));
    assert_eq!(hashed.get_ent("gate"), None);
    assert_eq!(hashed.len(), 1);
}

#[test]
fn an_entity_without_a_name_is_not_registered() {
    let mut hashed = UniqueHashed::default();
    let entity = EntityId::from_raw_u32(4).unwrap();
    assert_eq!(UniqueEntity::on_add(&mut hashed, None, entity), UniqueAdded::Nameless);
    assert_eq!(hashed.len(), 0);
    assert!(!UniqueEntity::on_remove(&mut hashed, None, entity));
}

#[test]
fn only_the_bearer_frees_its_name() {
    let mut hashed = UniqueHashed::default();
    let bearer = EntityId::from_raw_u32(0).unwrap();
    let other = EntityId::from_raw_u32(1).unwrap();
    let name = UniqueName::new("Gate");
    let unknown = UniqueName::new("Door");
    UniqueEntity::on_add(&mut hashed, Some(&name), bearer);
    assert!(!UniqueEntity::on_remove(&mut hashed, Some(&name), other));
    assert_eq!(hashed.get_ent("Gate"), Some(bearer));
    assert!(!UniqueEntity::on_remove(&mut hashed, Some(&unknown), bearer));
    assert_eq!(hashed.len(), 1);
    assert!(UniqueEntity::on_remove(&mut hashed, Some(&name), bearer));
    assert_eq!(hashed.get_ent("Gate"), None);
    assert_eq!(hashed.len(), 0);
    assert_eq!(UniqueEntity::on_add(&mut hashed, Some(&name), other), UniqueAdded::Registered);
    assert_eq!(hashed.get_ent("Gate"), Some(other));
}

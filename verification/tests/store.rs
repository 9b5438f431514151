use phosphor::world::{World, WorldError};

const POS: u64 = 1;
const HP: u64 = 2;

#[test]
fn spawn_handle_valid_until_despawn() {
    let mut w: World<u64> = World::new();
    let e = w.spawn(Some("hero".to_string()));
    assert!(w.is_live(e));
    assert_eq!(w.name(e).map(|s| s.as_str()), Some("hero"));
    assert!(w.insert(POS, e, 77).is_ok());
    assert_eq!(w.get(POS, e), Some(&77));
    w.despawn(e);
    assert!(!w.is_live(e));
    assert_eq!(w.get(POS, e), None);
    assert_eq!(w.insert(POS, e, 5), Err(WorldError::MissingComponent));
}

#[test]
fn reused_slot_gets_new_generation() {
    let mut w: World<u64> = World::new();
    let e1 = w.spawn(None);
    w.insert(POS, e1, 10).unwrap();
    w.despawn(e1);
    let e2 = w.spawn(None);
    // the slot is recycled, the generation tells the handles apart
    assert_eq!(e2.id, e1.id);
    assert_ne!(e2.gen, e1.gen);
    assert!(!w.is_live(e1));
    assert!(w.is_live(e2));
    // the stale handle stays invalid even though its slot is live again
    assert_eq!(w.get(POS, e1), None);
    assert_eq!(w.insert(POS, e1, 5), Err(WorldError::MissingComponent));
    // and the new occupant starts without components
    assert_eq!(w.get(POS, e2), None);
}

#[test]
fn insert_replaces_without_duplicating() {
    let mut w: World<u64> = World::new();
    let e = w.spawn(None);
    w.insert(POS, e, 1).unwrap();
    w.insert(POS, e, 2).unwrap();
    assert_eq!(w.get(POS, e), Some(&2));
    // the store for this type did not grow on replacement
    assert_eq!(w.query(POS).len(), 1);
}

#[test]
fn component_types_are_independent() {
    let mut w: World<u64> = World::new();
    let e = w.spawn(None);
    w.insert(POS, e, 1).unwrap();
    w.insert(HP, e, 100).unwrap();
    assert_eq!(w.get(POS, e), Some(&1));
    assert_eq!(w.get(HP, e), Some(&100));
    w.insert(HP, e, 99).unwrap();
    assert_eq!(w.get(POS, e), Some(&1));
}

#[test]
fn query_yields_live_holders_in_insertion_order() {
    let mut w: World<u64> = World::new();
    let a = w.spawn(None);
    let b = w.spawn(None);
    let c = w.spawn(None);
    w.insert(POS, b, 20).unwrap();
    w.insert(POS, a, 10).unwrap();
    w.insert(POS, c, 30).unwrap();
    let q = w.query(POS);
    assert_eq!(q.len(), 3);
    assert_eq!(q[0], (b, &20));
    assert_eq!(q[1], (a, &10));
    assert_eq!(q[2], (c, &30));
    // handles are pairwise distinct
    assert_ne!(q[0].0, q[1].0);
    assert_ne!(q[1].0, q[2].0);
    assert_ne!(q[0].0, q[2].0);
    // despawned entities never appear
    w.despawn(a);
    let q = w.query(POS);
    assert_eq!(q.len(), 2);
    assert!(q.iter().all(|(e, _)| *e != a));
    assert_eq!(q[0], (b, &20));
    assert_eq!(q[1], (c, &30));
}

#[test]
fn query_of_unknown_type_is_empty() {
    let mut w: World<u64> = World::new();
    let e = w.spawn(None);
    w.insert(POS, e, 1).unwrap();
    assert!(w.query(HP).is_empty());
}

#[test]
fn get_mut_updates_in_place() {
    let mut w: World<u64> = World::new();
    let e = w.spawn(None);
    let f = w.spawn(None);
    w.insert(POS, e, 1).unwrap();
    w.insert(POS, f, 2).unwrap();
    *w.get_mut(POS, e).unwrap() = 11;
    assert!(w.get_mut(HP, e).is_none());
    assert_eq!(w.get(POS, e), Some(&11));
    assert_eq!(w.get(POS, f), Some(&2));
    // the position in the column is kept
    let q = w.query(POS);
    assert_eq!(q[0], (e, &11));
    assert_eq!(q[1], (f, &2));
}

#[test]
fn take_on_empty_registry_is_absent_without_error() {
    let mut w: World<u64> = World::new();
    assert_eq!(w.take_resource(POS), None);
    w.add_resource(POS, 41);
    assert_eq!(w.get_resource(POS), Ok(&41));
    assert_eq!(w.take_resource(POS), Some(41));
    assert_eq!(w.get_resource(POS), Err(WorldError::MissingResource));
}

#[test]
fn add_resource_replaces_singleton() {
    let mut w: World<u64> = World::new();
    w.add_resource(POS, 1);
    w.add_resource(POS, 2);
    assert_eq!(w.get_resource(POS), Ok(&2));
    assert!(w.has_resource(POS));
    assert!(!w.has_resource(HP));
    *w.get_resource_mut(POS).unwrap() = 3;
    assert_eq!(w.get_resource_mut(HP).unwrap_err(), WorldError::MissingResource);
    assert_eq!(w.take_resource(POS), Some(3));
    assert_eq!(w.take_resource(POS), None);
}

#[test]
fn despawn_of_stale_handle_is_ignored() {
    let mut w: World<u64> = World::new();
    let e = w.spawn(None);
    w.despawn(e);
    w.despawn(e);
    let e2 = w.spawn(None);
    assert!(w.is_live(e2));
    assert!(!w.is_live(e));
}

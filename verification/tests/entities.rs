use shipyard::entity_id::{DEAD_INDEX, INDEX_LIMIT, MAX_GEN};
use shipyard::{Entities, EntityId};

#[test]
fn entity_id_parts() {
    let id = EntityId::new(5, 3);
    assert_eq!(id.index(), 5);
    assert_eq!(id.uindex(), 5);
    assert_eq!(id.gen(), 3);
    assert_eq!(EntityId::new(INDEX_LIMIT - 2, MAX_GEN).index(), INDEX_LIMIT - 2);
    assert_eq!(EntityId::new(INDEX_LIMIT - 2, MAX_GEN).gen(), MAX_GEN);
    assert_eq!(EntityId::zero(), EntityId::new(0, 0));
    assert_ne!(EntityId::new(1, 0), EntityId::new(0, 1));
    let mut id = EntityId::new(7, 9);
    id.set_index(11);
    assert_eq!((id.index(), id.gen()), (11, 9));
    id.set_gen(2);
    assert_eq!((id.index(), id.gen()), (11, 2));
    assert_eq!(id, EntityId::new(11, 2));
}

#[test]
fn dead_id_differs_from_every_issued_id() {
    let dead = EntityId::dead();
    assert!(dead.is_dead());
    assert_eq!(dead.index(), DEAD_INDEX);
    assert_eq!(dead.gen(), MAX_GEN);
    let mut entities = Entities::new();
    for _ in 0..10 {
        let id = entities.allocate();
        assert!(!id.is_dead());
        assert_ne!(id, dead);
    }
    assert!(!entities.is_alive(dead));
}

#[test]
fn allocate_issues_slots_in_order() {
    let mut entities = Entities::new();
    assert!(entities.has_room());
    let a = entities.allocate();
    let b = entities.allocate();
    assert_eq!(a, EntityId::new(0, 0));
    assert_eq!(b, EntityId::new(1, 0));
    assert!(entities.is_alive(a));
    assert!(entities.is_alive(b));
    assert!(!entities.is_alive(EntityId::new(2, 0)));
    assert!(!entities.is_alive(EntityId::new(0, 1)));
    assert_eq!(entities.slot_count(), 2);
}

#[test]
fn kill_says_whether_it_made_the_change() {
    let mut entities = Entities::new();
    let a = entities.allocate();
    assert!(entities.kill(a));
    assert!(!entities.is_alive(a));
    assert!(!entities.kill(a));
    assert!(!entities.kill(EntityId::new(5, 0)));
}

#[test]
fn reused_slot_gets_the_next_generation() {
    let mut entities = Entities::new();
    let id1 = entities.allocate();
    let other = entities.allocate();
    assert!(entities.kill(id1));
    let id2 = entities.allocate();
    assert_eq!(id2, EntityId::new(0, 1));
    assert_ne!(id1, id2);
    assert!(entities.is_alive(id2));
    assert!(!entities.is_alive(id1));
    assert!(!entities.kill(id1));
    assert!(entities.is_alive(id2));
    assert!(entities.is_alive(other));
    assert_eq!(entities.slot_count(), 2);
}

#[test]
fn the_slot_killed_last_is_reused_first() {
    let mut entities = Entities::new();
    let a = entities.allocate();
    let b = entities.allocate();
    let c = entities.allocate();
    entities.kill(a);
    entities.kill(c);
    entities.kill(b);
    assert_eq!(entities.allocate(), EntityId::new(1, 1));
    assert_eq!(entities.allocate(), EntityId::new(2, 1));
    assert_eq!(entities.allocate(), EntityId::new(0, 1));
    assert_eq!(entities.allocate(), EntityId::new(3, 0));
}

#[test]
fn a_slot_out_of_generations_is_never_reused() {
    let mut entities = Entities::new();
    let mut id = entities.allocate();
    for generation in 0..MAX_GEN {
        assert_eq!(id, EntityId::new(0, generation));
        assert!(entities.kill(id));
        id = entities.allocate();
    }
    assert_eq!(id, EntityId::new(0, MAX_GEN));
    assert!(entities.kill(id));
    assert!(!entities.is_alive(id));
    let next = entities.allocate();
    assert_eq!(next, EntityId::new(1, 0));
    for generation in 0..=MAX_GEN {
        assert!(!entities.is_alive(EntityId::new(0, generation)));
    }
}

#[test]
fn clear_kills_everything() {
    let mut entities = Entities::new();
    let a = entities.allocate();
    let b = entities.allocate();
    let c = entities.allocate();
    entities.kill(b);
    entities.clear();
    assert!(!entities.is_alive(a));
    assert!(!entities.is_alive(b));
    assert!(!entities.is_alive(c));
    assert_eq!(entities.allocate(), EntityId::new(2, 1));
    assert_eq!(entities.allocate(), EntityId::new(0, 1));
    assert_eq!(entities.allocate(), EntityId::new(1, 1));
}

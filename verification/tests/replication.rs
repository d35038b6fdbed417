//! Runtime checks of the room table, the interest resolver and the
//! replication dispatcher.

use room_replication::dispatch::{directives, visible_entities, Directive};
use room_replication::registry::{CarrierId, ComponentA, Registry, RelevanceMode, TargetScope};
use room_replication::resolver::{resolve_connect, RoomingPolicy};
use room_replication::rooms::RoomTable;

fn sorted(mut v: Vec<u64>) -> Vec<u64> {
    v.sort();
    v
}

#[test]
fn add_client_is_idempotent() {
    let mut t = RoomTable::new();
    t.add_client(1, 10);
    t.add_entity(1, 100);
    let once = sorted(t.members_visible_to(10));
    t.add_client(1, 10);
    let twice = sorted(t.members_visible_to(10));
    assert_eq!(once, vec![100]);
    assert_eq!(once, twice);
    assert_eq!(t.rooms.len(), 1);
    assert_eq!(t.rooms[0].clients.len(), 1);
}

#[test]
fn create_or_get_room_is_idempotent_and_lazy() {
    let mut t = RoomTable::new();
    t.create_or_get_room(6);
    t.create_or_get_room(6);
    assert_eq!(t.rooms.len(), 1);
    assert_eq!(t.rooms[0].id, 6);
    assert!(t.rooms[0].clients.is_empty() && t.rooms[0].entities.is_empty());
    // an existing room is returned untouched
    t.add_client(6, 10);
    t.create_or_get_room(6);
    assert_eq!(t.rooms[0].clients, vec![10]);
}

#[test]
fn client_in_no_room_sees_nothing() {
    let mut t = RoomTable::new();
    t.add_entity(1, 100);
    assert!(t.members_visible_to(10).is_empty());
    assert!(!t.sees(10, 100));
}

#[test]
fn add_entity_is_idempotent() {
    let mut t = RoomTable::new();
    t.add_entity(3, 42);
    t.add_entity(3, 42);
    assert_eq!(t.rooms.len(), 1);
    assert_eq!(t.rooms[0].entities.len(), 1);
    assert_eq!(t.rooms[0].entities[0], 42);
}

#[test]
fn room_reclaimed_when_both_sets_empty() {
    let mut t = RoomTable::new();
    t.add_client(5, 10);
    t.add_entity(5, 100);
    t.remove_client(5, 10);
    assert_eq!(t.rooms.len(), 1, "room still holds an entity");
    t.remove_entity(5, 100);
    assert_eq!(t.rooms.len(), 0, "room must be reclaimed once empty");
    assert!(!t.rooms.iter().any(|r| r.id == 5));
}

#[test]
fn removes_on_unknown_room_are_no_ops() {
    let mut t = RoomTable::new();
    t.add_client(1, 10);
    t.remove_client(99, 10);
    t.remove_entity(99, 100);
    assert_eq!(t.rooms.len(), 1);
    assert_eq!(t.rooms[0].id, 1);
}

#[test]
fn visibility_is_union_of_rooms() {
    let mut t = RoomTable::new();
    t.add_client(1, 10);
    t.add_entity(1, 100);
    t.add_entity(1, 101);
    t.add_client(2, 10);
    t.add_entity(2, 101);
    t.add_entity(2, 102);
    // a room the client is not in must not contribute
    t.add_client(3, 11);
    t.add_entity(3, 999);
    let visible = sorted(t.members_visible_to(10));
    assert_eq!(visible, vec![100, 101, 102]);
    assert!(t.sees(10, 100) && t.sees(10, 101) && t.sees(10, 102));
    assert!(!t.sees(10, 999));
}

#[test]
fn visibility_union_ignores_insertion_order() {
    let mut a = RoomTable::new();
    a.add_client(1, 10);
    a.add_entity(1, 100);
    a.add_client(2, 10);
    a.add_entity(2, 200);
    let mut b = RoomTable::new();
    b.add_entity(2, 200);
    b.add_client(2, 10);
    b.add_entity(1, 100);
    b.add_client(1, 10);
    assert_eq!(sorted(a.members_visible_to(10)), sorted(b.members_visible_to(10)));
}

#[test]
fn connect_groups_payload_entity_into_client_room() {
    // Scenario: client A connects while one payload-bearing entity E exists
    // with payload value 2.
    let mut reg = Registry::new();
    let e = reg.spawn(
        Some(ComponentA(2)),
        Some(CarrierId(7)),
        Some(b"Replicated entity".to_vec()),
    );
    let mut rooms = RoomTable::new();
    let policy = resolve_connect(&mut reg, &mut rooms, RoomingPolicy::NotYetInitialized, 7);
    assert!(matches!(policy, RoomingPolicy::Active));
    // the room table gains a room keyed to A containing {A} and {E}
    assert_eq!(rooms.rooms.len(), 1);
    assert_eq!(rooms.rooms[0].id, 7);
    assert_eq!(rooms.rooms[0].clients, vec![7]);
    assert_eq!(rooms.rooms[0].entities, vec![e]);
    // E's replication target becomes broadcast-all, interest-managed
    let record = &reg.entities[0];
    let target = record.target.as_ref().expect("target must be set");
    assert!(matches!(target.scope, TargetScope::All));
    assert!(matches!(target.relevance, RelevanceMode::InterestManagement));
    // E gains a new child payload component with baseline value 0
    assert_eq!(record.child_payload, Some(ComponentA(0)));
    // untouched components survive
    assert_eq!(record.payload, Some(ComponentA(2)));
    assert_eq!(record.carrier, Some(CarrierId(7)));
}

#[test]
fn second_connect_makes_entity_visible_to_both() {
    // Scenario: client B then connects while E is still the only
    // payload-bearing entity.
    let mut reg = Registry::new();
    let e = reg.spawn(Some(ComponentA(2)), Some(CarrierId(7)), None);
    let plain = reg.spawn(None, None, None);
    let mut rooms = RoomTable::new();
    let policy = resolve_connect(&mut reg, &mut rooms, RoomingPolicy::NotYetInitialized, 7);
    let policy = resolve_connect(&mut reg, &mut rooms, policy, 9);
    assert!(matches!(policy, RoomingPolicy::Active));
    // a second room keyed to B also containing {E}
    assert_eq!(rooms.rooms.len(), 2);
    let room_b = rooms.rooms.iter().find(|r| r.id == 9).expect("room for B");
    assert_eq!(room_b.clients, vec![9]);
    assert_eq!(room_b.entities, vec![e]);
    // E is now visible to both A and B; the plain entity to neither
    assert!(rooms.sees(7, e) && rooms.sees(9, e));
    assert!(!rooms.sees(7, plain) && !rooms.sees(9, plain));
    assert_eq!(visible_entities(&reg, &rooms, 7), vec![e]);
    assert_eq!(visible_entities(&reg, &rooms, 9), vec![e]);
}

#[test]
fn connect_without_payload_entities_changes_nothing() {
    let mut reg = Registry::new();
    reg.spawn(None, Some(CarrierId(1)), None);
    let mut rooms = RoomTable::new();
    let policy = resolve_connect(&mut reg, &mut rooms, RoomingPolicy::NotYetInitialized, 4);
    assert!(matches!(policy, RoomingPolicy::NotYetInitialized));
    assert_eq!(rooms.rooms.len(), 0);
    assert!(reg.entities[0].target.is_none());
    assert!(reg.entities[0].child_payload.is_none());
}

#[test]
fn disconnect_removes_client_from_every_room_but_keeps_entities() {
    let mut t = RoomTable::new();
    t.add_client(1, 10);
    t.add_entity(1, 100);
    t.add_client(1, 11);
    t.add_client(2, 10);
    t.add_entity(3, 300);
    t.add_client(3, 10);
    t.remove_client_everywhere(10);
    // room 1 keeps the other member and its entity
    let room1 = t.rooms.iter().find(|r| r.id == 1).expect("room 1 stays");
    assert_eq!(room1.clients, vec![11]);
    assert_eq!(room1.entities, vec![100]);
    // room 2 had only the departing client and no entities: reclaimed
    assert!(!t.rooms.iter().any(|r| r.id == 2));
    // room 3 keeps its entity for later members
    let room3 = t.rooms.iter().find(|r| r.id == 3).expect("room 3 stays");
    assert!(room3.clients.is_empty());
    assert_eq!(room3.entities, vec![300]);
    assert!(!t.sees(10, 100));
}

#[test]
fn dispatcher_emits_minimal_delta() {
    let prev: Vec<u64> = vec![1, 2, 3];
    let cur: Vec<u64> = vec![2, 3, 4];
    let delta = directives(&prev, &cur);
    assert_eq!(delta.len(), 4);
    assert!(delta.contains(&Directive::Stop(1)));
    assert!(delta.contains(&Directive::Update(2)));
    assert!(delta.contains(&Directive::Update(3)));
    assert!(delta.contains(&Directive::Start(4)));
}

#[test]
fn dispatcher_from_empty_previous_set_starts_everything() {
    let prev: Vec<u64> = Vec::new();
    let cur: Vec<u64> = vec![8];
    let delta = directives(&prev, &cur);
    assert_eq!(delta, vec![Directive::Start(8)]);
}

#[test]
fn untargeted_entities_are_not_replicated() {
    let mut reg = Registry::new();
    reg.spawn(Some(ComponentA(1)), None, None);
    let rooms = RoomTable::new();
    assert!(visible_entities(&reg, &rooms, 3).is_empty());
}

use test_scenario::engine::{
    deleted_object_ids, delete_object_for_testing, emit_wrapped_object_event,
    get_global_inventory, get_inventory, num_events, transferred_object_ids,
    try_global_inventory, try_transferred_object_ids,
};
use test_scenario::model::{Event, EventType, ADDRESS_LENGTH, ID_LENGTH};

fn id(b: u8) -> Vec<u8> {
    vec![b; ID_LENGTH]
}

fn addr(b: u8) -> Vec<u8> {
    vec![b; ADDRESS_LENGTH]
}

fn transfer(id_byte: u8, addr_byte: u8, tag: u64) -> Event {
    Event {
        recipient: addr(addr_byte),
        kind: EventType::TransferToAddress,
        type_tag: tag,
        payload: id(id_byte),
    }
}

fn transfer_to_object(id_byte: u8, parent_byte: u8, tag: u64) -> Event {
    Event {
        recipient: addr(parent_byte),
        kind: EventType::TransferToObject,
        type_tag: tag,
        payload: id(id_byte),
    }
}

fn freeze(id_byte: u8, tag: u64) -> Event {
    Event {
        recipient: Vec::new(),
        kind: EventType::FreezeObject,
        type_tag: tag,
        payload: id(id_byte),
    }
}

fn delete(id_byte: u8) -> Event {
    Event {
        recipient: Vec::new(),
        kind: EventType::DeleteObjectID,
        type_tag: 0,
        payload: id(id_byte),
    }
}

fn user() -> Event {
    Event {
        recipient: Vec::new(),
        kind: EventType::User,
        type_tag: 0,
        payload: Vec::new(),
    }
}

#[test]
fn delete_then_wrap_empties_inventory() {
    // Transfer(A, addr1), Transfer(B, addr1), Delete(A), Wrap(B):
    // A is deleted, B is wrapped, so nothing is left.
    let mut log = vec![transfer(1, 9, 7), transfer(2, 9, 7), delete(1)];
    emit_wrapped_object_event(&mut log, id(2));
    assert_eq!(log.len(), 4);
    assert_eq!(get_inventory(&addr(9), 7, 4, &log), Vec::<Vec<u8>>::new());
    assert_eq!(deleted_object_ids(&log, 0), vec![id(1)]);
    assert_eq!(transferred_object_ids(&log, 0), Vec::<Vec<u8>>::new());
}

#[test]
fn frozen_objects_match_every_address() {
    let log = vec![transfer(1, 9, 7), freeze(1, 7)];
    let r = get_inventory(&addr(5), 7, 2, &log);
    assert_eq!(r, vec![id(1)]);
}

#[test]
fn later_transfer_overwrites_owner() {
    let log = vec![transfer(1, 9, 7), transfer(1, 5, 7)];
    assert_eq!(get_inventory(&addr(9), 7, 2, &log), Vec::<Vec<u8>>::new());
    assert_eq!(get_inventory(&addr(5), 7, 2, &log), vec![id(1)]);
}

#[test]
fn deleting_an_unknown_id_is_tolerated() {
    let log = vec![user(), delete(3), delete(3)];
    assert_eq!(deleted_object_ids(&log, 0), vec![id(3), id(3)]);
    assert_eq!(transferred_object_ids(&log, 0), Vec::<Vec<u8>>::new());
    assert_eq!(get_inventory(&addr(9), 7, 3, &log), Vec::<Vec<u8>>::new());
}

#[test]
fn type_must_match_exactly() {
    let log = vec![transfer(1, 9, 1), transfer(2, 9, 2)];
    assert_eq!(get_inventory(&addr(9), 1, 2, &log), vec![id(1)]);
    assert_eq!(get_inventory(&addr(9), 2, 2, &log), vec![id(2)]);
    assert_eq!(get_inventory(&addr(9), 3, 2, &log), Vec::<Vec<u8>>::new());
}

#[test]
fn prefix_bound_gives_point_in_time_state() {
    let log = vec![transfer(1, 9, 7), delete(1)];
    assert_eq!(get_inventory(&addr(9), 7, 1, &log), vec![id(1)]);
    assert_eq!(get_inventory(&addr(9), 7, 2, &log), Vec::<Vec<u8>>::new());
    assert_eq!(get_inventory(&addr(9), 7, 0, &log), Vec::<Vec<u8>>::new());
}

#[test]
fn transferred_ids_see_only_strictly_later_events() {
    let log = vec![transfer(1, 9, 7), transfer(2, 9, 7), transfer(3, 9, 7)];
    // Only events with an index greater than the given position count: the
    // transfer at the position itself is outside the tail.
    assert_eq!(transferred_object_ids(&log, 1), vec![id(3)]);
    assert_eq!(transferred_object_ids(&log, 2), Vec::<Vec<u8>>::new());
    let tail = transferred_object_ids(&log, 0);
    assert_eq!(tail.len(), 2);
    assert!(!tail.contains(&id(1)));
    assert!(tail.contains(&id(2)));
    assert!(tail.contains(&id(3)));
    // A lone transfer at index 0 is not strictly after position 0.
    let single = vec![transfer(1, 9, 7)];
    assert_eq!(transferred_object_ids(&single, 0), Vec::<Vec<u8>>::new());
}

#[test]
fn deleted_ids_see_only_strictly_later_events() {
    let log = vec![user(), delete(1), delete(3)];
    assert_eq!(deleted_object_ids(&log, 0), vec![id(1), id(3)]);
    // A delete at the given position itself is outside the tail.
    assert_eq!(deleted_object_ids(&log, 1), vec![id(3)]);
    assert_eq!(deleted_object_ids(&log, 2), Vec::<Vec<u8>>::new());
    assert_eq!(deleted_object_ids(&log, 100), Vec::<Vec<u8>>::new());
    // A lone delete at index 0 is not strictly after position 0.
    let single = vec![delete(1)];
    assert_eq!(deleted_object_ids(&single, 0), Vec::<Vec<u8>>::new());
}

#[test]
fn transfer_after_wrap_revives_the_object() {
    let mut log = vec![transfer(1, 9, 7)];
    emit_wrapped_object_event(&mut log, id(1));
    log.push(transfer(1, 5, 7));
    assert_eq!(get_inventory(&addr(5), 7, 3, &log), vec![id(1)]);
    assert_eq!(get_inventory(&addr(9), 7, 3, &log), Vec::<Vec<u8>>::new());
    // The tail strictly after position 0 starts with the wrap of an object
    // that is not live within that tail: the checked query refuses it.
    assert!(try_transferred_object_ids(&log, 0).is_none());
}

#[test]
fn object_owned_objects_do_not_match_an_address_query() {
    let log = vec![user(), transfer_to_object(1, 9, 7)];
    assert_eq!(get_inventory(&addr(9), 7, 2, &log), Vec::<Vec<u8>>::new());
    assert_eq!(transferred_object_ids(&log, 0), vec![id(1)]);
}

#[test]
fn user_events_are_ignored() {
    let log = vec![user(), transfer(1, 9, 7), user()];
    assert_eq!(get_inventory(&addr(9), 7, 3, &log), vec![id(1)]);
    assert_eq!(transferred_object_ids(&log, 0), vec![id(1)]);
    assert_eq!(deleted_object_ids(&log, 0), Vec::<Vec<u8>>::new());
}

#[test]
fn the_returned_value_is_the_whole_payload() {
    let mut payload = id(1);
    payload.extend_from_slice(&[11, 22, 33]);
    let log = vec![Event {
        recipient: addr(9),
        kind: EventType::TransferToAddress,
        type_tag: 7,
        payload: payload.clone(),
    }];
    assert_eq!(get_inventory(&addr(9), 7, 1, &log), vec![payload]);
}

#[test]
fn num_events_counts_system_events_too() {
    let mut log = vec![user(), transfer(1, 9, 7)];
    assert_eq!(num_events(&log), 2);
    emit_wrapped_object_event(&mut log, id(1));
    assert_eq!(num_events(&log), 3);
    let appended = &log[2];
    assert_eq!(appended.recipient, id(1));
    assert_eq!(appended.kind, EventType::WrappedObject);
    assert!(appended.payload.is_empty());
}

#[test]
fn delete_placeholder_emits_nothing() {
    let mut log = vec![transfer(1, 9, 7)];
    delete_object_for_testing(&mut log);
    assert_eq!(log.len(), 1);
    assert_eq!(get_inventory(&addr(9), 7, 1, &log), vec![id(1)]);
}

#[test]
fn replay_is_deterministic() {
    let log = vec![transfer(1, 9, 7), freeze(2, 7), delete(1), user()];
    let first = get_global_inventory(&log, 0, 4);
    let second = get_global_inventory(&log, 0, 4);
    assert_eq!(first.ids(), second.ids());
    assert_eq!(
        first.values_for(&addr(9), 7),
        second.values_for(&addr(9), 7)
    );
    assert!(first.contains(&id(2)));
    assert!(!first.contains(&id(1)));
}

#[test]
fn untouched_objects_survive_a_longer_prefix() {
    // Events after the shorter prefix touch only B; A's entry is identical
    // under both bounds.
    let log = vec![transfer(1, 9, 7), transfer(2, 9, 7), delete(2)];
    assert_eq!(get_inventory(&addr(9), 7, 1, &log), vec![id(1)]);
    assert_eq!(get_inventory(&addr(9), 7, 3, &log), vec![id(1)]);
}

#[test]
fn builder_replays_only_the_given_slice() {
    let log = vec![transfer(1, 9, 7), transfer(2, 9, 7), delete(1)];
    // The middle slice sees only Transfer(B).
    let inv = get_global_inventory(&log, 1, 2);
    assert!(inv.contains(&id(2)));
    assert!(!inv.contains(&id(1)));
    assert_eq!(inv.ids(), vec![id(2)]);
}

#[test]
fn wrapped_ids_are_absent_from_suffix_queries() {
    let mut log = vec![transfer(1, 9, 7), transfer(2, 9, 7)];
    emit_wrapped_object_event(&mut log, id(2));
    // The tail strictly after position 0 holds Transfer(B) then Wrap(B).
    assert_eq!(transferred_object_ids(&log, 0), Vec::<Vec<u8>>::new());
    assert_eq!(
        try_transferred_object_ids(&log, 0),
        Some(Vec::<Vec<u8>>::new())
    );
    assert_eq!(get_inventory(&addr(9), 7, 3, &log), vec![id(1)]);
}

#[test]
fn checked_replay_refuses_inconsistent_slices() {
    // A malformed record: a transfer whose payload is shorter than an
    // identifier.
    let bad = vec![Event {
        recipient: addr(9),
        kind: EventType::TransferToAddress,
        type_tag: 7,
        payload: vec![1, 2, 3],
    }];
    assert!(try_global_inventory(&bad, 0, 1).is_none());
    // A wrap of an identifier that is not live in the replayed slice.
    let mut log = vec![transfer(1, 9, 7)];
    emit_wrapped_object_event(&mut log, id(2));
    assert!(try_global_inventory(&log, 0, 2).is_none());
    // The consistent counterpart is accepted.
    let good = vec![transfer(1, 9, 7)];
    let inv = try_global_inventory(&good, 0, 1).unwrap();
    assert!(inv.contains(&id(1)));
}

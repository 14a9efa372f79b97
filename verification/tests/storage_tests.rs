use sui_core::base_types::ObjectID;
use sui_core::storage::{
    DeleteKind, Event, InMemoryStorage, InvariantViolation, ObjectRecord, Owner,
};

fn id(last: u8) -> ObjectID {
    let mut bytes = vec![0u8; 20];
    bytes[19] = last;
    ObjectID::new(bytes)
}

fn record(last: u8, contents: Vec<u8>) -> ObjectRecord {
    ObjectRecord::new(id(last), Owner::SharedMutable, contents, b"Thing".to_vec())
}

fn event(name: &str) -> Event {
    Event { type_: name.as_bytes().to_vec(), contents: vec![] }
}

#[test]
fn created_object_reads_back_exactly_before_flush() {
    let mut storage = InMemoryStorage::new(vec![]);
    let obj = record(1, vec![10, 20, 30]);
    storage.write_object(obj.clone()).unwrap();
    assert_eq!(storage.created().len(), 1);
    assert_eq!(storage.updated().len(), 0);
    assert_eq!(storage.deleted().len(), 0);
    let back = storage.read_object(&id(1)).unwrap().unwrap();
    assert_eq!(back.version, 1);
    assert_eq!(back.contents, vec![10, 20, 30]);
    assert_eq!(back.id.bytes, obj.id.bytes);
    assert_eq!(back.type_tag, b"Thing".to_vec());
}

#[test]
fn updated_object_shadows_the_persistent_record() {
    let base = record(1, vec![1]);
    let mut storage = InMemoryStorage::new(vec![base]);
    let newer = record(1, vec![2]).increment_version();
    storage.write_object(newer).unwrap();
    assert_eq!(storage.updated().len(), 1);
    assert_eq!(storage.created().len(), 0);
    let back = storage.read_object(&id(1)).unwrap().unwrap();
    assert_eq!(back.version, 2);
    assert_eq!(back.contents, vec![2]);
}

#[test]
fn versions_observed_after_each_flush_count_up_from_one() {
    let mut storage = InMemoryStorage::new(vec![]);
    let mut expected_versions = Vec::new();
    let mut observed = Vec::new();
    // Create, then update repeatedly; observe after every flush.
    let mut current = record(9, vec![0]);
    for step in 1..=5u64 {
        expected_versions.push(step);
        storage.write_object(current.clone()).unwrap();
        storage.flush().unwrap();
        let back = storage.read_object(&id(9)).unwrap().unwrap();
        observed.push(back.version);
        current = back.increment_version();
    }
    assert_eq!(observed, expected_versions);
}

#[test]
fn wrap_then_unwrap_preserves_contents_and_adds_two_versions() {
    let mut storage = InMemoryStorage::new(vec![]);
    let obj = record(4, vec![42, 43]);
    storage.write_object(obj.clone()).unwrap();
    storage.flush().unwrap();
    let before_wrap = storage.read_object(&id(4)).unwrap().unwrap();
    assert_eq!(before_wrap.version, 1);

    // Wrapping deletes the object with the wrap kind and creates the
    // wrapper elsewhere.
    storage.delete_object(&id(4), before_wrap.version, DeleteKind::Wrap).unwrap();
    let wrapper = record(5, vec![9]);
    storage.write_object(wrapper).unwrap();
    assert_eq!(storage.created().len(), 1);
    assert_eq!(storage.deleted().len(), 1);
    storage.flush().unwrap();
    assert!(storage.read_object(&id(4)).unwrap().is_none());

    // Unwrapping deletes the wrapper and recreates the wrapped object.
    storage.delete_object(&id(5), 1, DeleteKind::Normal).unwrap();
    storage.write_object(before_wrap.unwrap_recreated()).unwrap();
    storage.flush().unwrap();
    assert!(storage.read_object(&id(5)).unwrap().is_none());
    let back = storage.read_object(&id(4)).unwrap().unwrap();
    assert_eq!(back.version, before_wrap.version + 2);
    assert_eq!(back.contents, before_wrap.contents);
}

#[test]
fn delete_after_update_write_is_an_invariant_violation() {
    let mut storage = InMemoryStorage::new(vec![record(1, vec![1])]);
    storage.write_object(record(1, vec![2]).increment_version()).unwrap();
    assert_eq!(
        storage.delete_object(&id(1), 2, DeleteKind::Normal),
        Err(InvariantViolation::DeleteAfterWrite)
    );
}

#[test]
fn write_after_delete_is_an_invariant_violation() {
    let mut storage = InMemoryStorage::new(vec![record(1, vec![1])]);
    storage.delete_object(&id(1), 1, DeleteKind::Normal).unwrap();
    assert_eq!(
        storage.write_object(record(1, vec![2])),
        Err(InvariantViolation::WriteAfterDelete)
    );
}

#[test]
fn repeated_delete_is_an_invariant_violation() {
    let mut storage = InMemoryStorage::new(vec![record(1, vec![1])]);
    storage.delete_object(&id(1), 1, DeleteKind::Normal).unwrap();
    assert_eq!(
        storage.delete_object(&id(1), 1, DeleteKind::Normal),
        Err(InvariantViolation::RepeatedDelete)
    );
}

#[test]
fn delete_of_a_freshly_created_id_is_allowed() {
    // A delete only clashes with updated or already-deleted ids; an id
    // still in created may be deleted within the same transaction.
    let mut storage = InMemoryStorage::new(vec![]);
    storage.write_object(record(7, vec![1])).unwrap();
    assert!(storage.delete_object(&id(7), 1, DeleteKind::Normal).is_ok());
}

#[test]
fn read_of_a_deleted_id_is_an_invariant_violation() {
    let mut storage = InMemoryStorage::new(vec![record(1, vec![1])]);
    storage.delete_object(&id(1), 1, DeleteKind::Normal).unwrap();
    assert!(matches!(storage.read_object(&id(1)), Err(InvariantViolation::ReadOfDeleted)));
}

#[test]
fn flush_rejects_a_created_id_already_present_persistently() {
    let persistent = record(3, vec![1]);
    let pending = record(3, vec![2]);
    let mut storage = InMemoryStorage::from_parts(vec![persistent], vec![pending], vec![]);
    assert_eq!(storage.flush(), Err(InvariantViolation::CreatedAlreadyPresent));
    // Nothing was committed and nothing was lost.
    assert_eq!(storage.created().len(), 1);
    let back = storage.read_object(&id(3)).unwrap().unwrap();
    assert_eq!(back.contents, vec![2]);
}

#[test]
fn flush_rejects_an_updated_id_absent_persistently() {
    let pending = record(6, vec![2]).increment_version();
    let mut storage = InMemoryStorage::from_parts(vec![], vec![], vec![pending]);
    assert_eq!(storage.flush(), Err(InvariantViolation::UpdatedAbsent));
    assert_eq!(storage.updated().len(), 1);
}

#[test]
fn flush_commits_creates_updates_and_deletes_atomically() {
    let mut storage =
        InMemoryStorage::new(vec![record(1, vec![1]), record(2, vec![2]), record(3, vec![3])]);
    storage.write_object(record(4, vec![4])).unwrap();
    storage.write_object(record(2, vec![22]).increment_version()).unwrap();
    storage.delete_object(&id(3), 1, DeleteKind::Normal).unwrap();
    storage.flush().unwrap();
    assert_eq!(storage.created().len(), 0);
    assert_eq!(storage.updated().len(), 0);
    assert_eq!(storage.deleted().len(), 0);
    assert_eq!(storage.read_object(&id(1)).unwrap().unwrap().contents, vec![1]);
    assert_eq!(storage.read_object(&id(2)).unwrap().unwrap().contents, vec![22]);
    assert!(storage.read_object(&id(3)).unwrap().is_none());
    assert_eq!(storage.read_object(&id(4)).unwrap().unwrap().contents, vec![4]);
}

#[test]
fn event_order_is_preserved_and_cleared_on_flush() {
    let mut storage = InMemoryStorage::new(vec![]);
    storage.log_event(event("First"));
    storage.log_event(event("Second"));
    storage.log_event(event("Third"));
    let events = storage.events();
    assert_eq!(events.len(), 3);
    assert_eq!(events[0].type_, b"First".to_vec());
    assert_eq!(events[1].type_, b"Second".to_vec());
    assert_eq!(events[2].type_, b"Third".to_vec());
    storage.flush().unwrap();
    assert_eq!(storage.events().len(), 0);
}

#[test]
fn reset_discards_the_scratchpad_and_keeps_the_persistent_map() {
    let mut storage = InMemoryStorage::new(vec![record(1, vec![1])]);
    storage.write_object(record(2, vec![2])).unwrap();
    storage.write_object(record(1, vec![11]).increment_version()).unwrap();
    storage.log_event(event("Dropped"));
    storage.reset();
    assert_eq!(storage.created().len(), 0);
    assert_eq!(storage.updated().len(), 0);
    assert_eq!(storage.events().len(), 0);
    assert_eq!(storage.read_object(&id(1)).unwrap().unwrap().contents, vec![1]);
    assert!(storage.read_object(&id(2)).unwrap().is_none());
}

#[test]
fn get_created_keys_names_the_pending_creations() {
    let mut storage = InMemoryStorage::new(vec![]);
    storage.write_object(record(8, vec![1])).unwrap();
    let keys = storage.get_created_keys();
    assert_eq!(keys.len(), 1);
    assert_eq!(keys[0].bytes, id(8).bytes);
}

#[test]
fn scratchpad_maps_expose_their_records() {
    let mut storage = InMemoryStorage::new(vec![record(1, vec![1])]);
    storage.write_object(record(2, vec![2])).unwrap();
    storage.write_object(record(1, vec![11]).increment_version()).unwrap();
    storage.delete_object(&id(2), 1, DeleteKind::Wrap).unwrap();
    assert!(storage.created().get(&id(2)).is_some());
    assert_eq!(storage.updated().get(&id(1)).unwrap().contents, vec![11]);
    let deletion = *storage.deleted().get(&id(2)).unwrap();
    assert_eq!(deletion.version, 1);
    assert_eq!(deletion.kind, DeleteKind::Wrap);
}

#[test]
fn repeated_write_of_one_id_keeps_the_latest_record() {
    let mut storage = InMemoryStorage::new(vec![]);
    storage.write_object(record(1, vec![1])).unwrap();
    storage.write_object(record(1, vec![2])).unwrap();
    assert_eq!(storage.created().len(), 1);
    assert_eq!(storage.read_object(&id(1)).unwrap().unwrap().contents, vec![2]);
}

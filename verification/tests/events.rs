use amethyst_physics::events::{ComponentEvent, ComponentEventLog};
use amethyst_physics::storage::{StorageError, TrackedStorage};
use amethyst_physics::systems::{iterate_component_events, partition_component_events};
use amethyst_physics::bitset::max_index;

#[test]
fn event_reports_its_entity() {
    assert_eq!(ComponentEvent::Inserted(7).id(), 7);
    assert_eq!(ComponentEvent::Modified(8).id(), 8);
    assert_eq!(ComponentEvent::Removed(9).id(), 9);
}

#[test]
fn new_log_has_no_reader_and_keeps_nothing() {
    let log = ComponentEventLog::new();
    assert_eq!(log.reader_count(), 0);
    assert_eq!(log.retained_count(), 0);
}

#[test]
fn reader_sees_only_what_is_written_after_its_registration() {
    let mut log = ComponentEventLog::new();
    log.single_write(ComponentEvent::Inserted(1));
    let reader = log.register_reader();
    log.single_write(ComponentEvent::Modified(1));
    log.single_write(ComponentEvent::Removed(1));
    assert_eq!(
        log.read(&reader),
        vec![ComponentEvent::Modified(1), ComponentEvent::Removed(1)]
    );
}

#[test]
fn second_read_without_writes_is_empty() {
    let mut log = ComponentEventLog::new();
    let reader = log.register_reader();
    log.single_write(ComponentEvent::Inserted(4));
    assert_eq!(log.read(&reader), vec![ComponentEvent::Inserted(4)]);
    assert_eq!(log.read(&reader), vec![]);
    assert_eq!(log.read(&reader), vec![]);
}

#[test]
fn readers_advance_independently() {
    let mut log = ComponentEventLog::new();
    let first = log.register_reader();
    log.single_write(ComponentEvent::Inserted(1));
    let second = log.register_reader();
    log.single_write(ComponentEvent::Inserted(2));
    assert_eq!(log.read(&second), vec![ComponentEvent::Inserted(2)]);
    log.single_write(ComponentEvent::Inserted(3));
    assert_eq!(
        log.read(&first),
        vec![
            ComponentEvent::Inserted(1),
            ComponentEvent::Inserted(2),
            ComponentEvent::Inserted(3)
        ]
    );
    assert_eq!(log.read(&second), vec![ComponentEvent::Inserted(3)]);
    assert_eq!(log.read(&first), vec![]);
}

#[test]
fn consecutive_reads_hand_out_every_event_once_and_in_order() {
    let mut log = ComponentEventLog::new();
    let reader = log.register_reader();
    let mut written = Vec::new();
    let mut read = Vec::new();
    for round in 0u32..5 {
        for step in 0..round {
            let event = match step % 3 {
                0 => ComponentEvent::Inserted(round * 10 + step),
                1 => ComponentEvent::Modified(round * 10 + step),
                _ => ComponentEvent::Removed(round * 10 + step),
            };
            log.single_write(event);
            written.push(event);
        }
        read.extend(log.read(&reader));
    }
    assert_eq!(read, written);
}

#[test]
fn log_without_reader_keeps_nothing() {
    let mut log = ComponentEventLog::new();
    log.single_write(ComponentEvent::Inserted(1));
    log.single_write(ComponentEvent::Inserted(2));
    assert_eq!(log.retained_count(), 0);
}

#[test]
fn log_keeps_what_the_slowest_reader_has_not_read() {
    let mut log = ComponentEventLog::new();
    let slow = log.register_reader();
    let fast = log.register_reader();
    log.single_write(ComponentEvent::Inserted(1));
    log.single_write(ComponentEvent::Inserted(2));
    assert_eq!(log.retained_count(), 2);
    assert_eq!(log.read(&fast).len(), 2);
    assert_eq!(log.retained_count(), 2);
    log.single_write(ComponentEvent::Inserted(3));
    assert_eq!(log.retained_count(), 3);
    assert_eq!(log.read(&slow).len(), 3);
    assert_eq!(log.retained_count(), 1);
    assert_eq!(log.read(&fast), vec![ComponentEvent::Inserted(3)]);
    assert_eq!(log.retained_count(), 0);
    assert_eq!(log.reader_count(), 2);
}

#[test]
fn partition_sorts_events_by_kind() {
    let events = vec![
        ComponentEvent::Inserted(1),
        ComponentEvent::Modified(2),
        ComponentEvent::Removed(3),
        ComponentEvent::Modified(4),
    ];
    let (inserted, modified, removed) = partition_component_events(&events);
    for id in 0..6 {
        assert_eq!(inserted.contains(id), id == 1);
        assert_eq!(modified.contains(id), id == 2 || id == 4);
        assert_eq!(removed.contains(id), id == 3);
    }
}

#[test]
fn partition_of_nothing_is_three_empty_sets() {
    let (inserted, modified, removed) = partition_component_events(&Vec::new());
    for id in 0..64 {
        assert!(!inserted.contains(id));
        assert!(!modified.contains(id));
        assert!(!removed.contains(id));
    }
}

#[test]
fn partition_collapses_repeated_events() {
    let events = vec![
        ComponentEvent::Modified(5),
        ComponentEvent::Modified(5),
        ComponentEvent::Modified(5),
    ];
    let (inserted, modified, removed) = partition_component_events(&events);
    assert!(modified.contains(5));
    assert!(!inserted.contains(5));
    assert!(!removed.contains(5));
    let members: Vec<u32> = (0..100).filter(|id| modified.contains(*id)).collect();
    assert_eq!(members, vec![5]);
}

#[test]
fn partition_keeps_an_entity_in_every_kind_it_has() {
    let events = vec![
        ComponentEvent::Inserted(9),
        ComponentEvent::Removed(9),
        ComponentEvent::Inserted(9),
        ComponentEvent::Modified(9),
    ];
    let (inserted, modified, removed) = partition_component_events(&events);
    assert!(inserted.contains(9));
    assert!(modified.contains(9));
    assert!(removed.contains(9));
}

#[test]
fn partition_takes_the_largest_index() {
    let largest = max_index() - 1;
    let events = vec![ComponentEvent::Removed(largest), ComponentEvent::Inserted(0)];
    let (inserted, modified, removed) = partition_component_events(&events);
    assert!(removed.contains(largest));
    assert!(!removed.contains(0));
    assert!(inserted.contains(0));
    assert!(!inserted.contains(largest));
    assert!(!modified.contains(largest));
}

#[test]
fn index_space_is_four_layers_of_machine_words() {
    let bits = usize::BITS as u64;
    assert_eq!(max_index() as u64, bits * bits * bits * bits);
}

#[test]
fn diff_reports_what_changed_since_the_last_diff() {
    let mut storage: TrackedStorage<u8> = TrackedStorage::new();
    let reader = storage.register_reader();
    assert_eq!(storage.insert(1, 10), Ok(None));
    assert_eq!(storage.insert(2, 20), Ok(None));
    assert_eq!(storage.replace(1, 11), Some(10));
    assert_eq!(storage.remove(2), Some(20));
    let (inserted, modified, removed) = iterate_component_events(&mut storage, &reader);
    assert!(inserted.contains(1) && inserted.contains(2));
    assert!(modified.contains(1) && !modified.contains(2));
    assert!(removed.contains(2) && !removed.contains(1));
    assert_eq!(storage.get(1), Some(&11));
    assert_eq!(storage.get(2), None);
}

#[test]
fn diff_twice_in_a_row_is_empty_the_second_time() {
    let mut storage: TrackedStorage<u8> = TrackedStorage::new();
    let reader = storage.register_reader();
    assert_eq!(storage.insert(3, 1), Ok(None));
    assert_eq!(storage.replace(3, 2), Some(1));
    assert_eq!(storage.remove(3), Some(2));
    let (inserted, modified, removed) = iterate_component_events(&mut storage, &reader);
    assert!(inserted.contains(3) && modified.contains(3) && removed.contains(3));
    let (inserted, modified, removed) = iterate_component_events(&mut storage, &reader);
    for id in 0..16 {
        assert!(!inserted.contains(id));
        assert!(!modified.contains(id));
        assert!(!removed.contains(id));
    }
}

#[test]
fn diff_of_an_untouched_storage_is_empty() {
    let mut storage: TrackedStorage<u8> = TrackedStorage::new();
    let reader = storage.register_reader();
    let (inserted, modified, removed) = iterate_component_events(&mut storage, &reader);
    for id in 0..16 {
        assert!(!inserted.contains(id));
        assert!(!modified.contains(id));
        assert!(!removed.contains(id));
    }
}

#[test]
fn union_of_consecutive_diffs_is_everything_that_changed() {
    let mut storage: TrackedStorage<u32> = TrackedStorage::new();
    let reader = storage.register_reader();
    let mut seen_inserted = Vec::new();
    let mut seen_modified = Vec::new();
    let mut seen_removed = Vec::new();
    for frame in 0u32..4 {
        assert_eq!(storage.insert(frame, frame), Ok(None));
        if frame > 0 {
            assert_eq!(storage.replace(frame - 1, 100), Some(frame - 1));
        }
        if frame > 1 {
            assert_eq!(storage.remove(frame - 2), Some(100));
        }
        let (inserted, modified, removed) = iterate_component_events(&mut storage, &reader);
        for id in 0..8 {
            if inserted.contains(id) {
                seen_inserted.push(id);
            }
            if modified.contains(id) {
                seen_modified.push(id);
            }
            if removed.contains(id) {
                seen_removed.push(id);
            }
        }
    }
    assert_eq!(seen_inserted, vec![0, 1, 2, 3]);
    assert_eq!(seen_modified, vec![0, 1, 2]);
    assert_eq!(seen_removed, vec![0, 1]);
}

#[test]
fn removed_entity_can_come_back_as_inserted() {
    let mut storage: TrackedStorage<u8> = TrackedStorage::new();
    let reader = storage.register_reader();
    assert_eq!(storage.insert(6, 1), Ok(None));
    let _ = iterate_component_events(&mut storage, &reader);
    assert_eq!(storage.remove(6), Some(1));
    assert_eq!(storage.insert(6, 2), Ok(None));
    let (inserted, modified, removed) = iterate_component_events(&mut storage, &reader);
    assert!(inserted.contains(6));
    assert!(removed.contains(6));
    assert!(!modified.contains(6));
}

#[test]
fn diff_does_not_touch_components_or_other_readers() {
    let mut storage: TrackedStorage<u8> = TrackedStorage::new();
    let first = storage.register_reader();
    let second = storage.register_reader();
    assert_eq!(storage.insert(2, 5), Ok(None));
    let _ = iterate_component_events(&mut storage, &first);
    assert_eq!(storage.get(2), Some(&5));
    assert_eq!(storage.read_events(&second), vec![ComponentEvent::Inserted(2)]);
}

#[test]
fn storage_starts_empty() {
    let storage: TrackedStorage<u8> = TrackedStorage::new();
    assert!(!storage.contains(0));
    assert_eq!(storage.get(0), None);
    assert_eq!(storage.upper_bound(), 0);
    assert_eq!(storage.log().reader_count(), 0);
}

#[test]
fn insert_logs_inserted_for_a_new_component_and_modified_for_an_overwrite() {
    let mut storage: TrackedStorage<u8> = TrackedStorage::new();
    let reader = storage.register_reader();
    assert_eq!(storage.insert(4, 1), Ok(None));
    assert_eq!(storage.insert(4, 2), Ok(Some(1)));
    assert_eq!(storage.get(4), Some(&2));
    assert!(storage.contains(4));
    assert!(!storage.contains(3));
    assert_eq!(
        storage.read_events(&reader),
        vec![ComponentEvent::Inserted(4), ComponentEvent::Modified(4)]
    );
}

#[test]
fn insert_refuses_an_index_outside_the_index_space() {
    let mut storage: TrackedStorage<u8> = TrackedStorage::new();
    let reader = storage.register_reader();
    let outside = max_index();
    assert_eq!(storage.insert(outside, 1), Err(StorageError::OutOfRange(outside)));
    assert_eq!(storage.insert(u32::MAX, 1), Err(StorageError::OutOfRange(u32::MAX)));
    assert!(!storage.contains(outside));
    assert_eq!(storage.read_events(&reader), vec![]);
}

#[test]
fn replace_overwrites_only_what_is_there() {
    let mut storage: TrackedStorage<u8> = TrackedStorage::new();
    let reader = storage.register_reader();
    assert_eq!(storage.replace(1, 9), None);
    assert!(!storage.contains(1));
    assert_eq!(storage.insert(1, 3), Ok(None));
    assert_eq!(storage.replace(1, 9), Some(3));
    assert_eq!(storage.get(1), Some(&9));
    assert_eq!(
        storage.read_events(&reader),
        vec![ComponentEvent::Inserted(1), ComponentEvent::Modified(1)]
    );
}

#[test]
fn remove_logs_only_what_it_removed() {
    let mut storage: TrackedStorage<u8> = TrackedStorage::new();
    let reader = storage.register_reader();
    assert_eq!(storage.remove(2), None);
    assert_eq!(storage.insert(2, 7), Ok(None));
    assert_eq!(storage.remove(2), Some(7));
    assert_eq!(storage.remove(2), None);
    assert!(!storage.contains(2));
    assert_eq!(
        storage.read_events(&reader),
        vec![ComponentEvent::Inserted(2), ComponentEvent::Removed(2)]
    );
}

#[test]
fn upper_bound_is_above_every_entity_with_a_component() {
    let mut storage: TrackedStorage<u8> = TrackedStorage::new();
    assert_eq!(storage.insert(0, 1), Ok(None));
    assert_eq!(storage.insert(17, 1), Ok(None));
    assert!(storage.upper_bound() > 17);
    assert!(storage.upper_bound() <= max_index());
}

#[test]
fn reader_is_registered_with_the_log_that_issued_it() {
    let mut log = ComponentEventLog::new();
    let mut other = ComponentEventLog::new();
    let first = log.register_reader();
    let second = log.register_reader();
    let lone = other.register_reader();
    assert!(log.is_registered(&first));
    assert!(log.is_registered(&second));
    assert!(other.is_registered(&lone));
    assert!(!other.is_registered(&second));
}

use amethyst_physics::events::ComponentEvent;
use amethyst_physics::math::{Quaternion, Vector3};
use amethyst_physics::storage::TrackedStorage;
use amethyst_physics::systems::sync_transforms_from_physics::SyncTransformsFromPhysicsSystem;
use amethyst_physics::systems::sync_transforms_to_physics::{
    physics_transform_change, PhysicsTransformChange, SyncTransformsToPhysicsSystem,
};
use amethyst_physics::transform::Transform;
use amethyst_physics::PhysicsTransform;

fn at(x: f64, y: f64, z: f64) -> Transform<f64> {
    Transform::from_translation(Vector3::new(x, y, z))
}

fn body(x: f64, y: f64, z: f64) -> PhysicsTransform<f64> {
    PhysicsTransform::from(Vector3::new(x, y, z))
}

fn to_physics(transforms: &mut TrackedStorage<Transform<f64>>) -> SyncTransformsToPhysicsSystem {
    let mut system = SyncTransformsToPhysicsSystem::default();
    system.setup(transforms);
    system
}

fn from_physics(
    physics_transforms: &mut TrackedStorage<PhysicsTransform<f64>>,
) -> SyncTransformsFromPhysicsSystem {
    let mut system = SyncTransformsFromPhysicsSystem::default();
    system.setup(physics_transforms);
    system
}

#[test]
fn vector_holds_its_coordinates() {
    let vector = Vector3::new(1.5f64, -2.0, 0.25);
    assert_eq!((vector.x, vector.y, vector.z), (1.5, -2.0, 0.25));
}

#[test]
fn transform_from_translation_has_no_rotation_or_scale() {
    let transform = at(1.0, 2.0, 3.0);
    assert_eq!(*transform.translation(), Vector3::new(1.0, 2.0, 3.0));
    assert_eq!(transform.rotation, None);
    assert_eq!(transform.scale, None);
}

#[test]
fn set_translation_keeps_rotation_and_scale() {
    let mut transform = Transform {
        translation: Vector3::new(0.0f64, 0.0, 0.0),
        rotation: Some(Quaternion { w: 1.0, i: 0.0, j: 0.5, k: 0.0 }),
        scale: Some(Vector3::new(2.0, 2.0, 2.0)),
    };
    transform.set_translation_xyz(7.0, 8.0, 9.0);
    assert_eq!(transform.translation, Vector3::new(7.0, 8.0, 9.0));
    assert_eq!(transform.rotation, Some(Quaternion { w: 1.0, i: 0.0, j: 0.5, k: 0.0 }));
    assert_eq!(transform.scale, Some(Vector3::new(2.0, 2.0, 2.0)));
}

#[test]
fn physics_transform_reports_and_takes_a_position() {
    let mut transform = body(1.0, 2.0, 3.0);
    assert_eq!(transform.position(), (1.0, 2.0, 3.0));
    transform.set_position(4.0, 5.0, 6.0);
    assert_eq!(transform.position(), (4.0, 5.0, 6.0));
    assert_eq!(transform.position, Vector3::new(4.0, 5.0, 6.0));
}

#[test]
fn inserted_transform_gets_a_physics_transform_at_its_translation() {
    let mut transforms = TrackedStorage::new();
    let mut physics_transforms = TrackedStorage::new();
    let mut system = to_physics(&mut transforms);
    assert_eq!(transforms.insert(3, at(1.0, 2.0, 3.0)), Ok(None));
    system.run(&mut transforms, &mut physics_transforms);
    assert_eq!(physics_transforms.get(3), Some(&body(1.0, 2.0, 3.0)));
    assert_eq!(physics_transforms.get(3).unwrap().position(), (1.0, 2.0, 3.0));
}

#[test]
fn creation_is_logged_on_the_physics_transforms() {
    let mut transforms = TrackedStorage::new();
    let mut physics_transforms: TrackedStorage<PhysicsTransform<f64>> = TrackedStorage::new();
    let reader = physics_transforms.register_reader();
    let mut system = to_physics(&mut transforms);
    assert_eq!(transforms.insert(5, at(0.0, 0.0, 0.0)), Ok(None));
    assert_eq!(transforms.insert(2, at(0.0, 0.0, 0.0)), Ok(None));
    system.run(&mut transforms, &mut physics_transforms);
    assert_eq!(
        physics_transforms.read_events(&reader),
        vec![ComponentEvent::Inserted(2), ComponentEvent::Inserted(5)]
    );
}

#[test]
fn transform_inserted_before_setup_is_not_seen() {
    let mut transforms = TrackedStorage::new();
    let mut physics_transforms: TrackedStorage<PhysicsTransform<f64>> = TrackedStorage::new();
    assert_eq!(transforms.insert(1, at(1.0, 1.0, 1.0)), Ok(None));
    let mut system = to_physics(&mut transforms);
    system.run(&mut transforms, &mut physics_transforms);
    assert!(!physics_transforms.contains(1));
}

#[test]
fn existing_physics_transform_is_not_overwritten_by_an_insertion() {
    let mut transforms = TrackedStorage::new();
    let mut physics_transforms = TrackedStorage::new();
    assert_eq!(physics_transforms.insert(3, body(9.0, 9.0, 9.0)), Ok(None));
    let reader = physics_transforms.register_reader();
    let mut system = to_physics(&mut transforms);
    assert_eq!(transforms.insert(3, at(1.0, 2.0, 3.0)), Ok(None));
    system.run(&mut transforms, &mut physics_transforms);
    assert_eq!(physics_transforms.get(3), Some(&body(9.0, 9.0, 9.0)));
    assert_eq!(physics_transforms.read_events(&reader), vec![]);
}

#[test]
fn removed_and_reinserted_transform_loses_its_physics_transform() {
    let mut transforms = TrackedStorage::new();
    let mut physics_transforms = TrackedStorage::new();
    let mut system = to_physics(&mut transforms);
    assert_eq!(transforms.insert(4, at(1.0, 0.0, 0.0)), Ok(None));
    system.run(&mut transforms, &mut physics_transforms);
    assert!(physics_transforms.contains(4));
    let reader = physics_transforms.register_reader();
    assert_eq!(transforms.remove(4), Some(at(1.0, 0.0, 0.0)));
    assert_eq!(transforms.insert(4, at(2.0, 0.0, 0.0)), Ok(None));
    system.run(&mut transforms, &mut physics_transforms);
    assert!(!physics_transforms.contains(4));
    assert_eq!(physics_transforms.read_events(&reader), vec![ComponentEvent::Removed(4)]);
}

#[test]
fn inserted_removed_and_reinserted_in_one_frame_ends_without_physics_transform() {
    let mut transforms = TrackedStorage::new();
    let mut physics_transforms = TrackedStorage::new();
    let reader = physics_transforms.register_reader();
    let mut system = to_physics(&mut transforms);
    assert_eq!(transforms.insert(4, at(1.0, 0.0, 0.0)), Ok(None));
    assert_eq!(transforms.remove(4), Some(at(1.0, 0.0, 0.0)));
    assert_eq!(transforms.insert(4, at(2.0, 0.0, 0.0)), Ok(None));
    system.run(&mut transforms, &mut physics_transforms);
    assert!(!physics_transforms.contains(4));
    assert_eq!(
        physics_transforms.read_events(&reader),
        vec![ComponentEvent::Inserted(4), ComponentEvent::Removed(4)]
    );
}

#[test]
fn entity_without_transform_is_passed_over() {
    let mut transforms = TrackedStorage::new();
    let mut physics_transforms = TrackedStorage::new();
    let mut system = to_physics(&mut transforms);
    assert_eq!(transforms.insert(4, at(1.0, 0.0, 0.0)), Ok(None));
    system.run(&mut transforms, &mut physics_transforms);
    assert_eq!(transforms.remove(4), Some(at(1.0, 0.0, 0.0)));
    system.run(&mut transforms, &mut physics_transforms);
    assert_eq!(physics_transforms.get(4), Some(&body(1.0, 0.0, 0.0)));
}

#[test]
fn removal_of_a_transform_without_physics_transform_changes_nothing() {
    let mut transforms = TrackedStorage::new();
    let mut physics_transforms: TrackedStorage<PhysicsTransform<f64>> = TrackedStorage::new();
    assert_eq!(transforms.insert(4, at(1.0, 0.0, 0.0)), Ok(None));
    let mut system = to_physics(&mut transforms);
    assert_eq!(transforms.remove(4), Some(at(1.0, 0.0, 0.0)));
    system.run(&mut transforms, &mut physics_transforms);
    assert!(!physics_transforms.contains(4));
}

#[test]
fn modified_transform_does_not_touch_the_physics_transform() {
    let mut transforms = TrackedStorage::new();
    let mut physics_transforms = TrackedStorage::new();
    let mut system = to_physics(&mut transforms);
    assert_eq!(transforms.insert(1, at(1.0, 1.0, 1.0)), Ok(None));
    assert_eq!(transforms.insert(2, at(2.0, 2.0, 2.0)), Ok(None));
    system.run(&mut transforms, &mut physics_transforms);
    assert_eq!(physics_transforms.remove(2), Some(body(2.0, 2.0, 2.0)));
    let reader = physics_transforms.register_reader();
    assert_eq!(transforms.replace(1, at(5.0, 5.0, 5.0)), Some(at(1.0, 1.0, 1.0)));
    assert_eq!(transforms.replace(2, at(6.0, 6.0, 6.0)), Some(at(2.0, 2.0, 2.0)));
    system.run(&mut transforms, &mut physics_transforms);
    assert_eq!(physics_transforms.get(1), Some(&body(1.0, 1.0, 1.0)));
    assert!(!physics_transforms.contains(2));
    assert_eq!(physics_transforms.read_events(&reader), vec![]);
}

#[test]
fn pass_to_physics_does_not_write_the_transforms() {
    let mut transforms = TrackedStorage::new();
    let mut physics_transforms = TrackedStorage::new();
    let observer = transforms.register_reader();
    let mut system = to_physics(&mut transforms);
    assert_eq!(transforms.insert(1, at(1.0, 1.0, 1.0)), Ok(None));
    system.run(&mut transforms, &mut physics_transforms);
    assert_eq!(transforms.get(1), Some(&at(1.0, 1.0, 1.0)));
    assert_eq!(transforms.read_events(&observer), vec![ComponentEvent::Inserted(1)]);
}

#[test]
fn second_pass_to_physics_without_writes_does_nothing() {
    let mut transforms = TrackedStorage::new();
    let mut physics_transforms = TrackedStorage::new();
    let mut system = to_physics(&mut transforms);
    assert_eq!(transforms.insert(1, at(1.0, 1.0, 1.0)), Ok(None));
    system.run(&mut transforms, &mut physics_transforms);
    assert_eq!(physics_transforms.remove(1), Some(body(1.0, 1.0, 1.0)));
    system.run(&mut transforms, &mut physics_transforms);
    assert!(!physics_transforms.contains(1));
}

#[test]
fn modified_physics_transform_moves_the_transform() {
    let mut transforms = TrackedStorage::new();
    let mut physics_transforms = TrackedStorage::new();
    assert_eq!(transforms.insert(1, at(0.0, 0.0, 0.0)), Ok(None));
    assert_eq!(physics_transforms.insert(1, body(0.0, 0.0, 0.0)), Ok(None));
    let mut system = from_physics(&mut physics_transforms);
    assert_eq!(physics_transforms.replace(1, body(10.0, 20.0, 0.0)), Some(body(0.0, 0.0, 0.0)));
    system.run(&mut physics_transforms, &mut transforms);
    assert_eq!(*transforms.get(1).unwrap().translation(), Vector3::new(10.0, 20.0, 0.0));
}

#[test]
fn pass_from_physics_keeps_rotation_and_scale() {
    let mut transforms = TrackedStorage::new();
    let mut physics_transforms = TrackedStorage::new();
    let turned = Transform {
        translation: Vector3::new(0.0f64, 0.0, 0.0),
        rotation: Some(Quaternion { w: 0.0, i: 1.0, j: 0.0, k: 0.0 }),
        scale: Some(Vector3::new(3.0, 3.0, 3.0)),
    };
    assert_eq!(transforms.insert(1, turned), Ok(None));
    assert_eq!(physics_transforms.insert(1, body(0.0, 0.0, 0.0)), Ok(None));
    let mut system = from_physics(&mut physics_transforms);
    assert_eq!(physics_transforms.replace(1, body(1.0, 2.0, 3.0)), Some(body(0.0, 0.0, 0.0)));
    system.run(&mut physics_transforms, &mut transforms);
    let moved = Transform { translation: Vector3::new(1.0, 2.0, 3.0), ..turned };
    assert_eq!(transforms.get(1), Some(&moved));
}

#[test]
fn inserted_or_removed_physics_transform_does_not_move_the_transform() {
    let mut transforms = TrackedStorage::new();
    let mut physics_transforms = TrackedStorage::new();
    assert_eq!(transforms.insert(1, at(1.0, 1.0, 1.0)), Ok(None));
    assert_eq!(transforms.insert(2, at(2.0, 2.0, 2.0)), Ok(None));
    assert_eq!(physics_transforms.insert(2, body(0.0, 0.0, 0.0)), Ok(None));
    let mut system = from_physics(&mut physics_transforms);
    let observer = transforms.register_reader();
    assert_eq!(physics_transforms.insert(1, body(7.0, 7.0, 7.0)), Ok(None));
    assert_eq!(physics_transforms.remove(2), Some(body(0.0, 0.0, 0.0)));
    system.run(&mut physics_transforms, &mut transforms);
    assert_eq!(transforms.get(1), Some(&at(1.0, 1.0, 1.0)));
    assert_eq!(transforms.get(2), Some(&at(2.0, 2.0, 2.0)));
    assert_eq!(transforms.read_events(&observer), vec![]);
}

#[test]
fn modified_physics_transform_without_transform_is_skipped() {
    let mut transforms: TrackedStorage<Transform<f64>> = TrackedStorage::new();
    let mut physics_transforms = TrackedStorage::new();
    assert_eq!(physics_transforms.insert(1, body(0.0, 0.0, 0.0)), Ok(None));
    let mut system = from_physics(&mut physics_transforms);
    assert_eq!(physics_transforms.replace(1, body(1.0, 1.0, 1.0)), Some(body(0.0, 0.0, 0.0)));
    system.run(&mut physics_transforms, &mut transforms);
    assert!(!transforms.contains(1));
    assert_eq!(physics_transforms.get(1), Some(&body(1.0, 1.0, 1.0)));
}

#[test]
fn modified_and_then_removed_physics_transform_is_skipped() {
    let mut transforms = TrackedStorage::new();
    let mut physics_transforms = TrackedStorage::new();
    assert_eq!(transforms.insert(1, at(1.0, 1.0, 1.0)), Ok(None));
    assert_eq!(physics_transforms.insert(1, body(0.0, 0.0, 0.0)), Ok(None));
    let mut system = from_physics(&mut physics_transforms);
    assert_eq!(physics_transforms.replace(1, body(5.0, 5.0, 5.0)), Some(body(0.0, 0.0, 0.0)));
    assert_eq!(physics_transforms.remove(1), Some(body(5.0, 5.0, 5.0)));
    system.run(&mut physics_transforms, &mut transforms);
    assert_eq!(transforms.get(1), Some(&at(1.0, 1.0, 1.0)));
}

#[test]
fn pass_from_physics_logs_modified_in_ascending_order() {
    let mut transforms = TrackedStorage::new();
    let mut physics_transforms = TrackedStorage::new();
    for id in [8u32, 3, 5] {
        assert_eq!(transforms.insert(id, at(0.0, 0.0, 0.0)), Ok(None));
        assert_eq!(physics_transforms.insert(id, body(0.0, 0.0, 0.0)), Ok(None));
    }
    let mut system = from_physics(&mut physics_transforms);
    let observer = transforms.register_reader();
    for id in [8u32, 3, 5] {
        assert_eq!(physics_transforms.replace(id, body(1.0, 1.0, 1.0)), Some(body(0.0, 0.0, 0.0)));
    }
    system.run(&mut physics_transforms, &mut transforms);
    assert_eq!(
        transforms.read_events(&observer),
        vec![
            ComponentEvent::Modified(3),
            ComponentEvent::Modified(5),
            ComponentEvent::Modified(8)
        ]
    );
}

#[test]
fn passes_do_not_feed_each_other() {
    let mut transforms = TrackedStorage::new();
    let mut physics_transforms = TrackedStorage::new();
    let mut to = to_physics(&mut transforms);
    let mut from = from_physics(&mut physics_transforms);
    assert_eq!(transforms.insert(1, at(1.0, 1.0, 1.0)), Ok(None));
    to.run(&mut transforms, &mut physics_transforms);
    from.run(&mut physics_transforms, &mut transforms);
    assert_eq!(transforms.get(1), Some(&at(1.0, 1.0, 1.0)));
    assert_eq!(physics_transforms.replace(1, body(10.0, 20.0, 0.0)), Some(body(1.0, 1.0, 1.0)));
    to.run(&mut transforms, &mut physics_transforms);
    from.run(&mut physics_transforms, &mut transforms);
    assert_eq!(*transforms.get(1).unwrap().translation(), Vector3::new(10.0, 20.0, 0.0));
    to.run(&mut transforms, &mut physics_transforms);
    assert_eq!(physics_transforms.get(1), Some(&body(10.0, 20.0, 0.0)));
    from.run(&mut physics_transforms, &mut transforms);
    assert_eq!(*transforms.get(1).unwrap().translation(), Vector3::new(10.0, 20.0, 0.0));
}

#[test]
fn change_of_a_physics_transform_follows_insertion_and_removal() {
    let cases = [
        (false, false, false, PhysicsTransformChange::Keep),
        (false, false, true, PhysicsTransformChange::Keep),
        (true, false, false, PhysicsTransformChange::Create),
        (true, false, true, PhysicsTransformChange::Keep),
        (false, true, false, PhysicsTransformChange::Keep),
        (false, true, true, PhysicsTransformChange::Remove),
        (true, true, false, PhysicsTransformChange::CreateAndRemove),
        (true, true, true, PhysicsTransformChange::Remove),
    ];
    for (inserted, removed, has_physics_transform, change) in cases {
        assert_eq!(physics_transform_change(inserted, removed, has_physics_transform), change);
    }
}

#[test]
fn systems_have_a_reader_once_set_up() {
    let mut transforms: TrackedStorage<Transform<f64>> = TrackedStorage::new();
    let mut physics_transforms: TrackedStorage<PhysicsTransform<f64>> = TrackedStorage::new();
    let mut to = SyncTransformsToPhysicsSystem::default();
    let mut from = SyncTransformsFromPhysicsSystem::default();
    assert!(to.reader_id().is_none());
    assert!(from.reader_id().is_none());
    to.setup(&mut transforms);
    from.setup(&mut physics_transforms);
    assert!(transforms.log().is_registered(to.reader_id().unwrap()));
    assert!(physics_transforms.log().is_registered(from.reader_id().unwrap()));
    assert_eq!(transforms.log().reader_count(), 1);
    assert_eq!(physics_transforms.log().reader_count(), 1);
}

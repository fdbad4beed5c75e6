use transform_graph::math::Scalar;
use transform_graph::ObjectTransform;
use transform_graph::TransformError;
use transform_graph::TransformMap;

fn scalar(v: f32) -> Scalar {
    Scalar::from_bits(v.to_bits())
}

fn close(a: glam::Vec3, b: glam::Vec3) -> bool {
    (a - b).length() < 1e-4
}

#[test]
fn creation() {
    let mut transform_map = TransformMap::new();
    for _ in 0..10_000 {
        let i1 = transform_map.new_transform(true);
        let i2 = transform_map.new_transform(true);

        assert_ne!(i1, i2);
    }
}

#[test]
fn hierarchy() {
    let mut transform_map = TransformMap::new();
    let parent = transform_map.new_transform(true);

    let child1 = transform_map.new_transform(true);
    transform_map.add_child_from_id(parent, child1).unwrap();
    let child2 = transform_map.add_child(parent, true);

    assert_eq!(transform_map.children_count(parent), 2);
    assert!(transform_map.has_child(parent, child1));
    assert!(transform_map.has_child(parent, child2));
    assert!(transform_map.is_parent_of(parent, child1));
    assert!(transform_map.is_parent_of(parent, child2));

    // Moving `parent` under its own child would close a cycle and must be
    // rejected outright, leaving every link as it was.
    let moved = transform_map.reparent(parent, Some(child1));
    assert!(matches!(moved, Err(TransformError::CycleDetected)));
    assert!(!transform_map.is_parent(child1));
    assert!(!transform_map.is_parent(parent));
    assert!(!transform_map.has_child(child1, parent));
    assert!(!transform_map.is_parent_of(child1, child2));
    assert!(transform_map.is_parent_of(parent, child2));
    assert!(!transform_map.has_child(child1, child2));
    assert_eq!(transform_map.children_count(parent), 2);
}

#[test]
fn attach_consistency() {
    let mut map = TransformMap::new();
    let p = map.new_transform(false);
    let first = map.add_child(p, false);
    let c = map.new_transform(false);

    map.add_child_from_id(p, c).unwrap();

    assert_eq!(map.parent(c), Some(p));
    assert!(map.has_child(p, c));
    // every previously existing child of `p` remains present
    assert!(map.has_child(p, first));
    assert_eq!(map.children_count(p), 2);
}

#[test]
fn reparent_idempotence() {
    let mut map = TransformMap::new();
    let root = map.new_transform(false);
    let a = map.add_child(root, false);
    let b = map.add_child(a, false);

    // Resolve everything so any dirty propagation would be visible.
    map.world_matrix(b);
    map.world_matrix(root);
    assert!(!map.is_dirty(root));
    assert!(!map.is_dirty(a));
    assert!(!map.is_dirty(b));

    // Reparenting onto the current parent is a no-op.
    assert!(map.reparent(a, Some(root)).is_ok());
    assert!(!map.is_dirty(root));
    assert!(!map.is_dirty(a));
    assert!(!map.is_dirty(b));
    assert_eq!(map.parent(a), Some(root));
    assert_eq!(map.children_count(root), 1);

    // Detaching a root is the same no-op.
    assert!(map.reparent(root, None).is_ok());
    assert!(!map.is_dirty(root));
}

#[test]
fn cycle_rejection() {
    let mut map = TransformMap::new();
    let root = map.new_transform(false);
    let a = map.add_child(root, false);
    let b = map.add_child(a, false);

    let r = map.reparent(root, Some(b));
    assert!(matches!(r, Err(TransformError::CycleDetected)));
    assert_eq!(map.parent(root), None);
    assert_eq!(map.parent(a), Some(root));
    assert_eq!(map.parent(b), Some(a));
    assert_eq!(map.children_count(root), 1);
    assert_eq!(map.children_count(a), 1);
    assert_eq!(map.children_count(b), 0);
}

#[test]
fn self_parent_rejection() {
    let mut map = TransformMap::new();
    let n = map.new_transform(false);
    let r = map.reparent(n, Some(n));
    assert!(matches!(r, Err(TransformError::SelfParent)));
    assert_eq!(map.parent(n), None);
}

#[test]
fn unknown_id_rejection() {
    let mut map = TransformMap::new();
    let n = map.new_transform(false);
    let stranger = n.wrapping_add(1);
    assert!(!map.contains(stranger));
    assert!(matches!(
        map.reparent(stranger, None),
        Err(TransformError::NotFound)
    ));
    assert!(matches!(
        map.reparent(n, Some(stranger)),
        Err(TransformError::NotFound)
    ));
    assert!(matches!(
        map.add_child_from_id(stranger, n),
        Err(TransformError::NotFound)
    ));
}

#[test]
fn lazy_resolution_correctness() {
    let mut map = TransformMap::new();
    let root = map.new_transform(false);
    let a = map.add_child(root, false);
    let b = map.add_child(a, false);
    // A separate branch that the queries below must not touch.
    let other = map.add_child(root, false);

    map.set_position(a, glam::Vec3::new(1.0, 0.0, 0.0));
    map.set_position(b, glam::Vec3::new(0.0, 0.0, 1.0));

    let pos = map.world_position(b);
    assert!(close(pos, glam::Vec3::new(1.0, 0.0, 1.0)));

    // Mutating A afterwards must be reflected exactly on re-query.
    map.set_position(a, glam::Vec3::new(2.0, 0.0, 0.0));
    assert!(map.is_dirty(a));
    assert!(map.is_dirty(b));
    let pos = map.world_position(b);
    assert!(close(pos, glam::Vec3::new(2.0, 0.0, 1.0)));
    assert!(!map.is_dirty(a));
    assert!(!map.is_dirty(b));
    // The untouched branch was never resolved by these queries.
    assert!(map.is_dirty(other));
}

#[test]
fn dirty_cascade_scope() {
    let mut map = TransformMap::new();
    let root = map.new_transform(false);
    let a = map.add_child(root, false);
    let b = map.add_child(a, false);
    let sibling = map.add_child(root, false);

    // Clean everything first.
    map.world_matrix(b);
    map.world_matrix(sibling);
    map.world_matrix(root);
    assert!(!map.is_dirty(root) && !map.is_dirty(a) && !map.is_dirty(b));
    assert!(!map.is_dirty(sibling));

    // Moving a parent marks every transitive descendant dirty.
    map.move_by(a, glam::Vec3::new(0.5, 0.0, 0.0));
    assert!(map.is_dirty(a));
    assert!(map.is_dirty(b));
    // ... but neither its ancestors nor its siblings.
    assert!(!map.is_dirty(root));
    assert!(!map.is_dirty(sibling));

    // Moving a leaf never dirties ancestors or siblings.
    map.world_matrix(b);
    map.move_by(b, glam::Vec3::new(0.0, 0.5, 0.0));
    assert!(map.is_dirty(b));
    assert!(!map.is_dirty(a));
    assert!(!map.is_dirty(root));
    assert!(!map.is_dirty(sibling));
}

#[test]
fn cache_reuse() {
    let mut map = TransformMap::new();
    let root = map.new_transform(false);
    let n = map.add_child(root, false);
    map.set_position(n, glam::Vec3::new(3.0, 1.0, 2.0));

    let first = map.world_matrix(n);
    assert!(!map.is_dirty(n));
    let second = map.world_matrix(n);
    assert_eq!(first, second);
    assert!(!map.is_dirty(n));
}

#[test]
fn world_matrix_of_translated_node() {
    let mut map = TransformMap::new();
    let n = map.new_transform(false);
    map.set_position(n, glam::Vec3::new(1.0, 2.0, 3.0));

    let pos = map.world_position(n);
    assert!(close(pos, glam::Vec3::new(1.0, 2.0, 3.0)));

    // The alternate cache holds the transpose of the world matrix.
    let world = map.world_matrix(n);
    let gl = map.gl_world_matrix(n);
    assert_eq!(gl, world.transpose());
    assert_ne!(gl, world);
}

#[test]
fn world_target_is_one_forward_unit_ahead() {
    let mut map = TransformMap::new();
    let n = map.new_transform(false);
    map.set_position(n, glam::Vec3::new(4.0, 0.0, 0.0));
    let target = map.world_target_position(n);
    assert!(close(target, glam::Vec3::new(4.0, 0.0, 1.0)));
}

#[test]
fn movement_operators() {
    let mut map = TransformMap::new();
    let n = map.new_transform(false);

    map.set_position(n, glam::Vec3::new(1.0, 2.0, 3.0));
    map.move_by(n, glam::Vec3::new(1.0, 1.0, 1.0));
    assert!(close(map.position(n), glam::Vec3::new(2.0, 3.0, 4.0)));

    // With an identity orientation, depth is +Z, vertical is +Y and the
    // horizontal vector (vertical x depth) is +X.
    map.set_position(n, glam::Vec3::ZERO);
    map.move_depth(n, scalar(2.0));
    assert!(close(map.position(n), glam::Vec3::new(0.0, 0.0, 2.0)));
    map.move_vertical(n, scalar(1.5));
    assert!(close(map.position(n), glam::Vec3::new(0.0, 1.5, 2.0)));
    map.move_horizontal(n, scalar(-1.0));
    assert!(close(map.position(n), glam::Vec3::new(-1.0, 1.5, 2.0)));
}

#[test]
fn axis_vectors_follow_orientation() {
    let mut map = TransformMap::new();
    let n = map.new_transform(false);

    assert!(close(map.depth_vector(n), glam::Vec3::Z));
    assert!(close(map.vertical_vector(n), glam::Vec3::Y));
    assert!(close(map.horizontal_negated_vector(n), glam::Vec3::X));
    assert!(close(map.horizontal_post_vector(n), -glam::Vec3::X));

    // A quarter turn about the vertical axis swings the depth vector onto
    // the +X axis under this system's sign convention.
    map.rotate_vertical(n, scalar(90.0));
    assert!(close(map.depth_vector(n), glam::Vec3::X));
    assert!(close(map.vertical_vector(n), glam::Vec3::Y));
}

#[test]
fn set_orientation_in_degrees() {
    let mut map = TransformMap::new();
    let n = map.new_transform(false);
    map.set_orientation(n, glam::Vec3::new(90.0, 0.0, 0.0));
    let euler = map.euler_angle(n);
    assert!((euler.x - std::f32::consts::FRAC_PI_2).abs() < 1e-4);
    assert!(euler.y.abs() < 1e-4);
    assert!(euler.z.abs() < 1e-4);
}

#[test]
fn detach_makes_a_root() {
    let mut map = TransformMap::new();
    let p = map.new_transform(false);
    let c = map.add_child(p, false);
    assert_eq!(map.parent(c), Some(p));

    map.detach(c).unwrap();
    assert_eq!(map.parent(c), None);
    assert!(!map.has_child(p, c));
    assert_eq!(map.children_count(p), 0);
}

#[test]
fn update_world_matrix_clears_staleness() {
    let mut map = TransformMap::new();
    let root = map.new_transform(false);
    let n = map.add_child(root, false);
    map.set_position(n, glam::Vec3::new(0.0, 7.0, 0.0));
    assert!(map.is_dirty(n));
    map.update_world_matrix(n);
    assert!(!map.is_dirty(n));
    assert!(!map.is_dirty(root));
    assert!(close(map.world_position(n), glam::Vec3::new(0.0, 7.0, 0.0)));
}

#[test]
fn transform_count_grows_per_creation() {
    let mut map = TransformMap::new();
    assert_eq!(map.transform_count(), 0);
    let a = map.new_transform(true);
    let b = map.add_child(a, false);
    assert_eq!(map.transform_count(), 2);
    assert!(map.contains(a) && map.contains(b));
}

#[test]
fn record_construction() {
    let t = ObjectTransform::new(true);
    assert!(t.dirty());
    assert_eq!(t.parent(), None);
    assert!(t.children().is_empty());

    let u = ObjectTransform::new(false);
    assert!(u.dirty());
    // Both initial-orientation branches denote a rotation of zero magnitude.
    assert!(close(t.depth_vector(), glam::Vec3::Z));
    assert!(close(u.depth_vector(), glam::Vec3::Z));
}

#[test]
fn record_local_operators() {
    let mut t = ObjectTransform::new(false);
    t.set_position(glam::Vec3::new(1.0, 0.0, 0.0));
    t.move_by(glam::Vec3::new(0.0, 2.0, 0.0));
    assert!(close(t.position(), glam::Vec3::new(1.0, 2.0, 0.0)));

    t.unset_dirty();
    assert!(!t.dirty());
    t.move_depth(scalar(1.0));
    assert!(t.dirty());
    assert!(close(t.position(), glam::Vec3::new(1.0, 2.0, 1.0)));

    t.rotate_vertical(scalar(90.0));
    assert!(close(t.depth_vector(), glam::Vec3::X));
}

#[test]
fn local_position_inverts_world() {
    let mut map = TransformMap::new();
    let n = map.new_transform(false);
    map.set_position(n, glam::Vec3::new(1.0, 2.0, 3.0));
    let local = map.local_position(n, glam::Vec3::new(1.0, 2.0, 3.0));
    assert!(close(local, glam::Vec3::ZERO));
}

#[test]
fn record_keeps_its_identifier() {
    let t = ObjectTransform::with_id(42, false);
    assert_eq!(t.id(), 42);
    assert!(t.dirty());
}

#[test]
fn camera_vectors_of_translated_node() {
    let mut map = TransformMap::new();
    let n = map.new_transform(false);
    map.set_position(n, glam::Vec3::new(1.0, 2.0, 3.0));
    let (position, target, up) = map.camera_vectors(n);
    assert!(close(position, glam::Vec3::new(1.0, 2.0, 3.0)));
    assert!(close(target, glam::Vec3::new(1.0, 2.0, 4.0)));
    // up is the transformed up point minus the target.
    assert!(close(up, glam::Vec3::new(0.0, 1.0, -1.0)));
}

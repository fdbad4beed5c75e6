//! The per-node transform record: local pose, cache fields and hierarchy
//! links.  Hierarchy and dirty-propagation invariants across records are the
//! business of `TransformMap`; this module only gives each record exact
//! field-level contracts.

use vstd::prelude::*;
use crate::ident;
use crate::math;
use crate::math::Scalar;

verus! {

/// One scene object's transform: local position and orientation relative to
/// the parent, the cached local-to-world matrix (and its transpose for a
/// column-major consumer), the cache-invalidation flag, and the hierarchy
/// links held as plain identifier keys.
pub struct ObjectTransform {
    id: u128,
    position: glam::Vec3,
    orientation: glam::Quat,
    dirty: bool,
    world_matrix: glam::Mat4,
    gl_world_matrix: glam::Mat4,
    parent: Option<u128>,
    children: Vec<u128>,
}

/// Both records hold the same local pose.
pub open spec fn same_pose(a: ObjectTransform, b: ObjectTransform) -> bool {
    a.spec_position() == b.spec_position() && a.spec_orientation() == b.spec_orientation()
}

/// Both records hold the same cached matrices.
pub open spec fn same_cache(a: ObjectTransform, b: ObjectTransform) -> bool {
    a.spec_world_matrix() == b.spec_world_matrix() && a.spec_gl_world_matrix()
        == b.spec_gl_world_matrix()
}

/// No identifier is listed twice.
pub open spec fn children_distinct(s: Seq<u128>) -> bool {
    forall|i: int, j: int| #![trigger s[i], s[j]] 0 <= i < j < s.len() ==> s[i] != s[j]
}

/// The local matrix a record's pose denotes: the inverse of the rotation
/// matrix of its orientation, composed with the translation matrix of its
/// position — the fixed rotation-then-translation convention of this system.
pub open spec fn spec_local_matrix(t: ObjectTransform) -> glam::Mat4 {
    math::mat_mul_of(
        math::mat_inverse_of(math::quat_to_matrix_of(t.spec_orientation())),
        math::mat_translation_of(t.spec_position()),
    )
}

/// The canonical forward unit vector carried into the record's local frame
/// by the inverse of its orientation matrix.
pub open spec fn spec_depth_vector(t: ObjectTransform) -> glam::Vec3 {
    math::vec3_transform_of(
        math::vec3_forward_of(),
        math::mat_inverse_of(math::quat_to_matrix_of(t.spec_orientation())),
    )
}

/// The canonical up unit vector carried the same way.
pub open spec fn spec_vertical_vector(t: ObjectTransform) -> glam::Vec3 {
    math::vec3_transform_of(
        math::vec3_up_of(),
        math::mat_inverse_of(math::quat_to_matrix_of(t.spec_orientation())),
    )
}

/// The vertical vector crossed with the depth vector, in exactly that
/// operand order: the order fixes the sign of "horizontal" movement.
pub open spec fn spec_horizontal_vector(t: ObjectTransform) -> glam::Vec3 {
    math::vec3_cross_of(spec_vertical_vector(t), spec_depth_vector(t))
}

/// The record's initial pose: the origin, and for either hint value an
/// orientation denoting a rotation of zero magnitude.
pub open spec fn initial_orientation(face_y: bool) -> glam::Quat {
    if face_y {
        math::quat_from_axis_angle_of(math::vec3_up_of(), (Scalar { bits: 0 }))
    } else {
        math::quat_identity_of()
    }
}

/// Both records hold the same identity and hierarchy links.
pub open spec fn same_links(a: ObjectTransform, b: ObjectTransform) -> bool {
    a.spec_id() == b.spec_id() && a.spec_parent() == b.spec_parent() && a.spec_children()
        == b.spec_children()
}

impl ObjectTransform {
    pub closed spec fn spec_id(self) -> u128 {
        self.id
    }

    pub closed spec fn spec_position(self) -> glam::Vec3 {
        self.position
    }

    pub closed spec fn spec_orientation(self) -> glam::Quat {
        self.orientation
    }

    pub closed spec fn spec_dirty(self) -> bool {
        self.dirty
    }

    pub closed spec fn spec_world_matrix(self) -> glam::Mat4 {
        self.world_matrix
    }

    pub closed spec fn spec_gl_world_matrix(self) -> glam::Mat4 {
        self.gl_world_matrix
    }

    pub closed spec fn spec_parent(self) -> Option<u128> {
        self.parent
    }

    pub closed spec fn spec_children(self) -> Seq<u128> {
        self.children@
    }

    /// Builds a fresh record under the given identifier: origin position, an
    /// orientation equivalent to no rotation, empty cache marked stale, no
    /// hierarchy links.  The `face_y` hint selects between two ways of
    /// building the initial orientation, but both presently denote a rotation
    /// of zero magnitude; the parameter is kept as a configuration option and
    /// is currently inert.
    pub fn with_id(id: u128, face_y: bool) -> (r: ObjectTransform)
        ensures
            r.spec_id() == id,
            r.spec_dirty(),
            r.spec_parent() == Option::<u128>::None,
            r.spec_children() == Seq::<u128>::empty(),
            r.spec_position() == math::vec3_zero_of(),
            r.spec_orientation() == initial_orientation(face_y),
            r.spec_world_matrix() == math::mat_zero_of(),
            r.spec_gl_world_matrix() == math::mat_zero_of(),
    {
        let orientation = if face_y {
            math::quat_from_axis_angle(math::vec3_up(), Scalar::zero())
        } else {
            math::quat_identity()
        };
        ObjectTransform {
            id,
            position: math::vec3_zero(),
            orientation,
            dirty: true,
            world_matrix: math::mat_zero(),
            gl_world_matrix: math::mat_zero(),
            parent: None,
            children: Vec::new(),
        }
    }

    /// Builds a fresh record under a randomly drawn identifier.
    pub fn new(face_y: bool) -> (r: ObjectTransform)
        ensures
            r.spec_dirty(),
            r.spec_parent() == Option::<u128>::None,
            r.spec_children() == Seq::<u128>::empty(),
            r.spec_position() == math::vec3_zero_of(),
            r.spec_orientation() == initial_orientation(face_y),
    {
        let id = ident::random_id();
        ObjectTransform::with_id(id, face_y)
    }

    pub fn id(&self) -> (r: u128)
        ensures
            r == self.spec_id(),
    {
        self.id
    }

    pub fn parent(&self) -> (r: Option<u128>)
        ensures
            r == self.spec_parent(),
    {
        self.parent
    }

    pub fn children(&self) -> (r: &Vec<u128>)
        ensures
            r@ == self.spec_children(),
    {
        &self.children
    }

    pub fn set_parent(&mut self, new_parent: Option<u128>)
        ensures
            final(self).spec_parent() == new_parent,
            final(self).spec_id() == old(self).spec_id(),
            final(self).spec_children() == old(self).spec_children(),
            final(self).spec_dirty() == old(self).spec_dirty(),
            same_pose(*final(self), *old(self)),
            same_cache(*final(self), *old(self)),
    {
        self.parent = new_parent;
    }

    pub fn add_child(&mut self, child: u128)
        ensures
            final(self).spec_children() == old(self).spec_children().push(child),
            final(self).spec_id() == old(self).spec_id(),
            final(self).spec_parent() == old(self).spec_parent(),
            final(self).spec_dirty() == old(self).spec_dirty(),
            same_pose(*final(self), *old(self)),
            same_cache(*final(self), *old(self)),
    {
        self.children.push(child);
    }

    /// Drops a child from the list.  The list is kept duplicate-free by the
    /// store, so dropping the first occurrence drops the identifier.
    pub fn remove_child(&mut self, child: u128)
        requires
            children_distinct(old(self).spec_children()),
        ensures
            forall|c: u128|
                #[trigger] final(self).spec_children().contains(c) <==> (old(
                    self,
                ).spec_children().contains(c) && c != child),
            children_distinct(final(self).spec_children()),
            final(self).spec_id() == old(self).spec_id(),
            final(self).spec_parent() == old(self).spec_parent(),
            final(self).spec_dirty() == old(self).spec_dirty(),
            same_pose(*final(self), *old(self)),
            same_cache(*final(self), *old(self)),
    {
        let n = self.children.len();
        let mut i: usize = 0;
        while i < n
            invariant
                *self == *old(self),
                children_distinct(old(self).spec_children()),
                n == self.children@.len(),
                i <= n,
                forall|j: int| 0 <= j < i ==> self.children@[j] != child,
            decreases n - i,
        {
            if self.children[i] == child {
                let ghost before = self.children@;
                self.children.remove(i);
                proof {
                    assert(children_distinct(before));
                    assert(self.children@ == before.remove(i as int));
                    assert forall|c: u128|
                        #[trigger] self.children@.contains(c) <==> (before.contains(c) && c
                            != child) by {
                        if self.children@.contains(c) {
                            let w = choose|w: int|
                                0 <= w < self.children@.len() && self.children@[w] == c;
                            if w < i {
                                assert(before[w] == c);
                            } else {
                                assert(before[w + 1] == c);
                            }
                            assert(before.contains(c));
                            assert(c != child) by {
                                if c == child {
                                    let v = if w < i {
                                        w
                                    } else {
                                        w + 1
                                    };
                                    assert(before[v] == child);
                                    assert(before[i as int] == child);
                                    assert(v != i);
                                }
                            }
                        }
                        if before.contains(c) && c != child {
                            let w = choose|w: int| 0 <= w < before.len() && before[w] == c;
                            if w < i {
                                assert(self.children@[w] == c);
                            } else {
                                assert(w != i);
                                assert(self.children@[w - 1] == c);
                            }
                        }
                    }
                    assert forall|a: int, b: int|
                        #![trigger self.children@[a], self.children@[b]]
                        0 <= a < b < self.children@.len() implies self.children@[a]
                        != self.children@[b] by {
                        let a0 = if a < i {
                            a
                        } else {
                            a + 1
                        };
                        let b0 = if b < i {
                            b
                        } else {
                            b + 1
                        };
                        assert(self.children@[a] == before[a0]);
                        assert(self.children@[b] == before[b0]);
                        assert(a0 < b0);
                        assert(before[a0] != before[b0]);
                    }
                }
                return ;
            }
            i += 1;
        }
        proof {
            assert forall|c: u128|
                #[trigger] self.children@.contains(c) <==> (self.children@.contains(c) && c
                    != child) by {
                if self.children@.contains(c) && c == child {
                    let w = choose|w: int|
                        0 <= w < self.children@.len() && self.children@[w] == c;
                    assert(false);
                }
            }
        }
    }

    pub fn set_dirty(&mut self)
        ensures
            final(self).spec_dirty(),
            same_links(*final(self), *old(self)),
            same_pose(*final(self), *old(self)),
            same_cache(*final(self), *old(self)),
    {
        self.dirty = true;
    }

    pub fn unset_dirty(&mut self)
        ensures
            !final(self).spec_dirty(),
            same_links(*final(self), *old(self)),
            same_pose(*final(self), *old(self)),
            same_cache(*final(self), *old(self)),
    {
        self.dirty = false;
    }

    pub fn position(&self) -> (r: glam::Vec3)
        ensures
            r == self.spec_position(),
    {
        self.position
    }

    pub fn orientation(&self) -> (r: glam::Quat)
        ensures
            r == self.spec_orientation(),
    {
        self.orientation
    }

    pub fn dirty(&self) -> (r: bool)
        ensures
            r == self.spec_dirty(),
    {
        self.dirty
    }

    pub fn world_matrix(&self) -> (r: glam::Mat4)
        ensures
            r == self.spec_world_matrix(),
    {
        self.world_matrix
    }

    pub fn gl_world_matrix(&self) -> (r: glam::Mat4)
        ensures
            r == self.spec_gl_world_matrix(),
    {
        self.gl_world_matrix
    }

    pub fn set_world_matrix(&mut self, matrix: glam::Mat4)
        ensures
            final(self).spec_world_matrix() == matrix,
            final(self).spec_gl_world_matrix() == old(self).spec_gl_world_matrix(),
            final(self).spec_dirty() == old(self).spec_dirty(),
            same_links(*final(self), *old(self)),
            same_pose(*final(self), *old(self)),
    {
        self.world_matrix = matrix;
    }

    pub fn set_gl_world_matrix(&mut self, matrix: glam::Mat4)
        ensures
            final(self).spec_gl_world_matrix() == matrix,
            final(self).spec_world_matrix() == old(self).spec_world_matrix(),
            final(self).spec_dirty() == old(self).spec_dirty(),
            same_links(*final(self), *old(self)),
            same_pose(*final(self), *old(self)),
    {
        self.gl_world_matrix = matrix;
    }

    /// Overwrites the local pose in one step; the store pairs this with its
    /// subtree-wide staleness marking.
    pub(crate) fn set_pose(&mut self, new_position: glam::Vec3, new_orientation: glam::Quat)
        ensures
            final(self).spec_position() == new_position,
            final(self).spec_orientation() == new_orientation,
            final(self).spec_dirty() == old(self).spec_dirty(),
            same_links(*final(self), *old(self)),
            same_cache(*final(self), *old(self)),
    {
        self.position = new_position;
        self.orientation = new_orientation;
    }

    /// Stores a freshly resolved world matrix with its transpose and clears
    /// the staleness flag in one step.
    pub(crate) fn store_world(&mut self, world: glam::Mat4, gl_world: glam::Mat4)
        ensures
            final(self).spec_world_matrix() == world,
            final(self).spec_gl_world_matrix() == gl_world,
            !final(self).spec_dirty(),
            same_links(*final(self), *old(self)),
            same_pose(*final(self), *old(self)),
    {
        self.world_matrix = world;
        self.gl_world_matrix = gl_world;
        self.dirty = false;
    }

    pub fn set_position(&mut self, new_position: glam::Vec3)
        ensures
            final(self).spec_position() == new_position,
            final(self).spec_orientation() == old(self).spec_orientation(),
            final(self).spec_dirty(),
            same_links(*final(self), *old(self)),
            same_cache(*final(self), *old(self)),
    {
        self.position = new_position;
        self.set_dirty();
    }

    /// The local orientation as Euler angles in radians, intrinsic X,Y,Z
    /// convention.
    pub fn euler_angle(&self) -> (r: glam::Vec3)
        ensures
            r == math::quat_to_euler_of(self.spec_orientation()),
    {
        math::quat_to_euler(self.orientation)
    }

    /// The canonical forward unit vector carried into this record's local
    /// frame by the inverse of its orientation matrix.
    pub fn depth_vector(&self) -> (r: glam::Vec3)
        ensures
            r == spec_depth_vector(*self),
    {
        math::vec3_transform(
            math::vec3_forward(),
            math::mat_inverse(math::quat_to_matrix(self.orientation)),
        )
    }

    /// The canonical up unit vector carried the same way.
    pub fn vertical_vector(&self) -> (r: glam::Vec3)
        ensures
            r == spec_vertical_vector(*self),
    {
        math::vec3_transform(
            math::vec3_up(),
            math::mat_inverse(math::quat_to_matrix(self.orientation)),
        )
    }

    /// The cross product of the vertical and depth vectors, in that order.
    pub fn horizontal_negated_vector(&self) -> (r: glam::Vec3)
        ensures
            r == spec_horizontal_vector(*self),
    {
        math::vec3_cross(self.vertical_vector(), self.depth_vector())
    }

    /// The cross product taken in the opposite order.
    pub fn horizonal_post_vector(&self) -> (r: glam::Vec3)
        ensures
            r == math::vec3_cross_of(spec_depth_vector(*self), spec_vertical_vector(*self)),
    {
        math::vec3_cross(self.depth_vector(), self.vertical_vector())
    }

    /// The origin transformed by the cached world matrix.  Meaningful only
    /// while the record is clean.
    pub fn world_position(&self) -> (r: glam::Vec3)
        ensures
            r == math::vec3_transform_of(math::vec3_zero_of(), self.spec_world_matrix()),
    {
        math::vec3_transform(math::vec3_zero(), self.world_matrix)
    }

    /// The local matrix: the inverse of the orientation's rotation matrix,
    /// composed with the translation matrix of the position.
    pub fn local_matrix(&self) -> (r: glam::Mat4)
        ensures
            r == spec_local_matrix(*self),
    {
        let rot = math::quat_to_matrix(self.orientation);
        let tr = math::mat_translation(self.position);
        math::mat_mul(math::mat_inverse(rot), tr)
    }

    /// Replaces the orientation by the rotation built from Euler angles in
    /// degrees (intrinsic X,Y,Z) and marks the record stale.
    pub fn set_orientation(&mut self, new_angle: glam::Vec3)
        ensures
            final(self).spec_orientation() == math::quat_from_euler_of(
                math::vec3_to_radians_of(new_angle),
            ),
            final(self).spec_position() == old(self).spec_position(),
            final(self).spec_dirty(),
            same_links(*final(self), *old(self)),
            same_cache(*final(self), *old(self)),
    {
        let radians = math::vec3_to_radians(new_angle);
        self.orientation = math::quat_from_euler(radians);
        self.set_dirty();
    }

    /// Points the record at a target and marks it stale.
    pub fn look_at(&mut self, target: glam::Vec3, up: glam::Vec3)
        ensures
            final(self).spec_orientation() == math::quat_from_matrix_of(
                math::mat_look_at_of(old(self).spec_position(), target, up),
            ),
            final(self).spec_position() == old(self).spec_position(),
            final(self).spec_dirty(),
            same_links(*final(self), *old(self)),
            same_cache(*final(self), *old(self)),
    {
        self.set_dirty();
        let matrix = math::mat_look_at(self.position, target, up);
        self.orientation = math::quat_from_matrix(matrix);
    }

    /// Adds a raw offset to the position.  Movement through the record alone
    /// leaves descendants untouched; the store's operators mark them stale.
    pub fn move_by(&mut self, offset: glam::Vec3)
        ensures
            final(self).spec_position() == math::vec3_add_of(old(self).spec_position(), offset),
            final(self).spec_orientation() == old(self).spec_orientation(),
            final(self).spec_dirty() == old(self).spec_dirty(),
            same_links(*final(self), *old(self)),
            same_cache(*final(self), *old(self)),
    {
        self.position = math::vec3_add(self.position, offset);
    }

    /// Moves along the vertical vector and marks the record stale.
    pub fn move_vertical(&mut self, distance: Scalar)
        ensures
            final(self).spec_position() == math::vec3_add_of(
                old(self).spec_position(),
                math::vec3_scale_of(spec_vertical_vector(*old(self)), distance),
            ),
            final(self).spec_orientation() == old(self).spec_orientation(),
            final(self).spec_dirty(),
            same_links(*final(self), *old(self)),
            same_cache(*final(self), *old(self)),
    {
        self.set_dirty();
        let delta = math::vec3_scale(self.vertical_vector(), distance);
        self.position = math::vec3_add(self.position, delta);
    }

    /// Moves along the depth vector and marks the record stale.
    pub fn move_depth(&mut self, distance: Scalar)
        ensures
            final(self).spec_position() == math::vec3_add_of(
                old(self).spec_position(),
                math::vec3_scale_of(spec_depth_vector(*old(self)), distance),
            ),
            final(self).spec_orientation() == old(self).spec_orientation(),
            final(self).spec_dirty(),
            same_links(*final(self), *old(self)),
            same_cache(*final(self), *old(self)),
    {
        self.set_dirty();
        let delta = math::vec3_scale(self.depth_vector(), distance);
        self.position = math::vec3_add(self.position, delta);
    }

    /// Moves along the horizontal vector and marks the record stale.
    pub fn move_horizontal(&mut self, distance: Scalar)
        ensures
            final(self).spec_position() == math::vec3_add_of(
                old(self).spec_position(),
                math::vec3_scale_of(spec_horizontal_vector(*old(self)), distance),
            ),
            final(self).spec_orientation() == old(self).spec_orientation(),
            final(self).spec_dirty(),
            same_links(*final(self), *old(self)),
            same_cache(*final(self), *old(self)),
    {
        self.set_dirty();
        let delta = math::vec3_scale(self.horizontal_negated_vector(), distance);
        self.position = math::vec3_add(self.position, delta);
    }

    /// Prepends a rotation about the vertical axis (angle in degrees,
    /// negated) and marks the record stale.
    pub fn rotate_vertical(&mut self, angle: Scalar)
        ensures
            final(self).spec_orientation() == math::quat_mul_of(
                math::quat_from_euler_of(
                    math::vec3_to_radians_of(
                        math::vec3_scale_of(math::vec3_up_of(), math::scalar_neg_of(angle)),
                    ),
                ),
                old(self).spec_orientation(),
            ),
            final(self).spec_position() == old(self).spec_position(),
            final(self).spec_dirty(),
            same_links(*final(self), *old(self)),
            same_cache(*final(self), *old(self)),
    {
        self.set_dirty();
        let degrees = math::vec3_scale(math::vec3_up(), math::scalar_neg(angle));
        let rotation = math::quat_from_euler(math::vec3_to_radians(degrees));
        self.orientation = math::quat_mul(rotation, self.orientation);
    }

    /// Prepends a rotation about the depth axis (angle in degrees, negated)
    /// and marks the record stale.
    pub fn rotate_depth(&mut self, angle: Scalar)
        ensures
            final(self).spec_orientation() == math::quat_mul_of(
                math::quat_from_euler_of(
                    math::vec3_to_radians_of(
                        math::vec3_scale_of(math::vec3_forward_of(), math::scalar_neg_of(angle)),
                    ),
                ),
                old(self).spec_orientation(),
            ),
            final(self).spec_position() == old(self).spec_position(),
            final(self).spec_dirty(),
            same_links(*final(self), *old(self)),
            same_cache(*final(self), *old(self)),
    {
        self.set_dirty();
        let degrees = math::vec3_scale(math::vec3_forward(), math::scalar_neg(angle));
        let rotation = math::quat_from_euler(math::vec3_to_radians(degrees));
        self.orientation = math::quat_mul(rotation, self.orientation);
    }

    /// Prepends a rotation about the horizontal axis (angle in degrees,
    /// without negation) and marks the record stale.
    pub fn rotate_horizontal(&mut self, angle: Scalar)
        ensures
            final(self).spec_orientation() == math::quat_mul_of(
                math::quat_from_euler_of(
                    math::vec3_to_radians_of(math::vec3_scale_of(math::vec3_right_of(), angle)),
                ),
                old(self).spec_orientation(),
            ),
            final(self).spec_position() == old(self).spec_position(),
            final(self).spec_dirty(),
            same_links(*final(self), *old(self)),
            same_cache(*final(self), *old(self)),
    {
        self.set_dirty();
        let degrees = math::vec3_scale(math::vec3_right(), angle);
        let rotation = math::quat_from_euler(math::vec3_to_radians(degrees));
        self.orientation = math::quat_mul(rotation, self.orientation);
    }
}

} // verus!

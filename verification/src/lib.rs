//! A hierarchical set of spatial transforms for objects in a 3D scene, with
//! lazy world-matrix resolution.
//!
//! The store owns every transform record and hands out plain identifier keys;
//! the hierarchy operations keep the parent/children relation bidirectionally
//! consistent and reject edits that would close a cycle; any local mutation
//! eagerly marks the whole subtree stale, and the cached world matrices are
//! recomputed lazily, walking up to the nearest clean ancestor, when a
//! consumer asks for them.

pub mod ident;
pub mod math;
pub mod object_transform;

pub mod transform_map;

pub use object_transform::ObjectTransform;
pub use transform_map::TransformMap;
pub use transform_map::TransformError;


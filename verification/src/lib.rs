//! Platform-agnostic analysis of a scene before it is rendered: damage tracking,
//! occlusion culling and opaque-quad classification.
//!
//! A GPU backend uses [`damage`] to redraw only the region that changed between two
//! frames, and [`occlusion`] and [`depth`] to avoid overdraw. Everything here is pure
//! analysis of the [`scene`]; the backend supplies its own scissoring, depth attachment
//! and presentation.

pub mod damage;
pub mod depth;
pub mod geometry;
pub mod kinds;
pub mod occlusion;
pub mod rounding;
pub mod scene;
pub mod single;
pub mod transform;

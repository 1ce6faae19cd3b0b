//! Dense containers of fixed shape.

pub mod vec2d;
pub mod vec3d;

//! Core of a bounding-volume-hierarchy ray-tracing engine: flat node
//! arrays addressed by tagged 32-bit pointers, a bounded traversal stack,
//! the surface-area-heuristic build skeleton, and the eight-wide node
//! layout with its branch-free front-to-back child ordering.
//!
//! All floating-point geometry (boxes, rays, leaf intersectors) is owned
//! by the caller and flows through these structures as an opaque payload;
//! everything index- and bit-shaped is verified here.

pub mod node_pointer;
pub mod node_stack;
pub mod traverse;
pub mod bvh;
pub mod obvh;
pub mod empty;
pub mod obj_file;

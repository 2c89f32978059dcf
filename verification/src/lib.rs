//! Core of a retained-mode GUI toolkit: a view tree with fine-grained dirty
//! tracking, a mount/unmount lifecycle, a two-phase layout pass, and a
//! per-window update scheduler, together with the supporting geometry types
//! and a small code generator for bit-set types.

pub mod bitsetgen;
pub mod flags;
pub mod geometry;
pub mod listener;
pub mod tree;

//! A small reverse-mode automatic differentiation engine.
//!
//! Operations are recorded on a tape as they execute; the reverse pass walks
//! the tape backwards and builds the gradient nodes with the same operations,
//! so a gradient can itself be differentiated.
pub mod backend;
pub mod graph;
pub mod tape;
pub mod laws;

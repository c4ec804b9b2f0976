//! Define-by-run reverse-mode automatic differentiation over n-dimensional
//! integer arrays.
//!
//! Arrays are plain values: a shape and a row-major value sequence. Arrays
//! that take part in differentiation also name a node of a [`graph::Graph`],
//! the arena that records every operation applied to tracked arrays. Node ids
//! grow with time, so the arena's order is a topological order of the
//! computation. Calling `backward` on a result walks the nodes from that
//! result down, visiting each node once all of its consumers have sent their
//! contribution, and leaves the summed gradient in every node it reaches.
//!
//! Convolution is built from three differentiable steps: unrolling image
//! patches into matrix rows, a matrix product with the flattened filters, and
//! a transpose that lays the result out one image per filter.
//!
//! Scalars are `i64` with two's-complement wrapping arithmetic, so every
//! kernel is total and the gradient rules hold exactly.

pub mod numbers;
pub mod shape;
pub mod array;
pub mod matmul;
pub mod graph;
pub mod ops;
pub mod image;
pub mod laws;
pub mod model;

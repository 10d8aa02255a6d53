//! Verified solvers for a handful of submarine puzzles: a decoder and
//! evaluator for a nested, bit-packed packet format, and a few smaller
//! computations on depth readings, courses, dot sheets, polymers and dice.

pub mod bits;
pub mod error;
pub mod packet;
pub mod decoder;
pub mod eval;
pub mod loader;
pub mod transmission;
pub mod sonar;
pub mod course;
pub mod dirac;
pub mod origami;
pub mod polymer;
pub mod image;
pub mod text;

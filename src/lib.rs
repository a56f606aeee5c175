//! Reordering the entries of a sparse matrix in coordinate form.
//!
//! `reader` parses the coordinate text form, `matrix` holds the entries and reorders them
//! (in place by following the cycles of a permutation, see `cycle`, or by sorting keys and
//! scattering, see `order`), and `writer` writes them back. `permutation` is a general
//! permutation type with in-place application on the same cycle engine.

pub mod cycle;
pub mod matrix;
pub mod order;
pub mod permutation;
pub mod reader;
pub mod writer;

pub use matrix::{DataType, Matrix, MatrixData, SortOrder, Value};
pub use permutation::Permutation;
pub use reader::{from_text, from_text_par, IntWidth, ParseError, Span};
pub use writer::to_text;

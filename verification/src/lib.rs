//! Connected-component labelling of three-dimensional boolean cloud fields.
//!
//! Cells are stored flat, `x + nx * (y + ny * z)`, with `x` varying fastest.
//! Two cells touch through a face; the `x` and `y` axes wrap around, the `z`
//! axis does not.
pub mod grid;
pub mod paths;
pub mod labeler;
pub mod sizes;
pub mod interop;
pub mod laws;

pub use grid::{cyclic, flat_index};
pub use labeler::gen_labels;
pub use sizes::label_sizes;

//! Small containers and algorithms: a bounds-checked matrix, the edit
//! distance between two sequences, a ring buffer with a running sum, and
//! random identifiers.

pub mod buffer;
pub mod element;
pub mod error;
pub mod grid;
pub mod levenshtein;
pub mod make_id;
pub mod matrix;

pub use buffer::Buffer;
pub use error::UtilsError;
pub use grid::Grid;
pub use levenshtein::levenshtein;
pub use make_id::make_id;
pub use matrix::Matrix;

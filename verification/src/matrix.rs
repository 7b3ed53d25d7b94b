//! Square matrices and columns behind small access traits, and lazy views
//! that permute or transpose them.

pub mod column;
pub mod dense;
pub mod norms;
pub mod permutation;
pub mod row_permuted;
pub mod solve_upper;
pub mod traits;
pub mod transpose;

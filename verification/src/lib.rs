//! Data-independent comparison and sorting over homomorphically encrypted
//! integers, expressed as straight-line circuits over a prime field.

pub mod circuit;
pub mod coefficients;
pub mod field;
pub mod indicator;
pub mod less_than;
pub mod matching;
pub mod number_theory;
pub mod polynomial;
pub mod powers;
pub mod ranking;
pub mod sort;
pub mod utils;

pub use coefficients::compute_lt_coefficients;
pub use less_than::univariate_less_than;
pub use powers::powers_of_x;
pub use sort::{sort, sort_equality_subroutine};
pub use utils::{convert_u64_to_i64, read_values, store_values};

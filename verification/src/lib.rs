//! Preimage search against a round-based substitution-permutation cipher.
//!
//! A round of the cipher substitutes every byte of a 32-byte block and
//! multiplies the result by a 32 by 32 matrix over GF(2); after the rounds a
//! combination stage folds the block into 16 bytes. Given the cipher's
//! tables, a target and a number of rounds, `crack` finds input blocks that
//! the cipher maps to the target.

pub mod matrix;
pub mod linear;
pub mod inverse;
pub mod lookup;
pub mod matcher;
pub mod product;
pub mod reversal;
pub mod cipher;
pub mod search;
pub mod soundness;

pub use inverse::{compute_inverse, try_inverse};
pub use lookup::build_lookup_table;
pub use matcher::xor_match;
pub use matrix::{compute_matrix, matrix_mult};
pub use reversal::{reverse_targets, reverse_targets_within};
pub use search::{crack, crack_within, try_crack, Budget, SearchError};

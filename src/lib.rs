//! Exact substring search with the Boyer-Moore algorithm: a dense bad-character
//! table and the strong good-suffix rule, built from the Z-algorithm.
pub mod error;
pub mod text;
pub mod z_array;
pub mod good_suffix;
pub mod bad_char;
pub mod matcher;
pub mod shift_lemmas;
pub mod search;

pub use error::BmError;
pub use matcher::BoyerMoore;
pub use search::{align_at, boyer_moore_search, Alignment};

//! Bit-flip hill climbing over a fixed-width binary encoding of an interval.
//!
//! The floating-point parts of the search (the objective function and the
//! affine mapping between indices and reals) live with the caller; this
//! library holds the integer side: bit patterns, bit lengths, the ordering of
//! scores given as IEEE-754 single-precision bit patterns, and the decisions
//! of the search itself.

pub mod binary_text;
pub mod encoding;
pub mod score;
pub mod precision;
pub mod search;

pub use encoding::{Bin, Int};
pub use score::{best_index, score_greater, score_is_nan, SearchError};
pub use search::{low_bits, random_l_bit_bin, Search};
pub use precision::{bit_length, max_index, ConfigError, MAX_BIT_LENGTH};
pub use binary_text::{format_binary, parse_binary};

//! Distance coding of byte blocks, with the move-to-front rank table it is built on.
//!
//! Distance coding turns a block of bytes with long runs and close repetitions,
//! as a block-sorting transform produces them, into the list of its symbols and
//! a stream of small numbers: for every symbol the position where it occurs
//! first, and for every run the distance to the next occurrence of its symbol.
//!
//! - [`encode`] and [`encode_simple`] make the alphabet and the distances of a
//!   block; `model` says what they are.
//! - [`decode`] and [`decode_simple`] rebuild the block; `decoder` says how,
//!   and `round_trip` proves that the block comes back.
//! - [`MTF`] is the rank table that both directions work with.

use vstd::prelude::*;

pub mod decoder;
pub mod encoder;
pub mod expectation;
pub mod model;
pub mod mtf;
pub mod round_trip;
pub mod source;

pub use decoder::{decode, decode_simple};
pub use encoder::{encode, encode_simple};
pub use mtf::MTF;
pub use source::{DecodeError, DistanceSource, SliceSource};

verus! {

/// A byte of a block.
pub type Symbol = u8;

/// The place of a symbol in a rank table; rank 0 is the front.
pub type Rank = u8;

/// A position in a block, or a number of positions.
pub type Distance = usize;

/// Number of symbols in the byte alphabet, which is also the number of ranks.
pub const TOTAL_SYMBOLS: usize = 256;

} // verus!

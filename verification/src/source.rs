//! Where the decoder gets its distances from.

use crate::{Distance, Symbol};
use vstd::prelude::*;

verus! {

/// Why a block could not be decoded.
#[derive(Clone, Copy, Debug, PartialEq, Eq, Structural)]
pub enum DecodeError {
    /// The source has no distance left.
    EndOfStream,
    /// The source failed for a reason of its own.
    SourceFailed,
    /// The alphabet is empty though the block is not, or names a symbol twice.
    InvalidAlphabet,
    /// A distance leads nowhere inside the block.
    InvalidDistance,
}

/// A supplier of distances that the decoder asks, one request at a time, for
/// the next distance of a given symbol.
///
/// The two spec functions describe the supplier as the decoder sees it: what
/// it answers to a request in its present state, and which state it is in
/// afterwards. An implementation defines them for its own state; the contract
/// of `decode` is stated over them, so it says of every source what the
/// decoder makes of the answers that this source gives.
pub trait DistanceSource: Sized {
    /// What the source answers when asked for the next distance of `sym`.
    open spec fn answer(&self, sym: u8) -> Result<usize, DecodeError> {
        arbitrary()
    }

    /// The source after it was asked for the next distance of `sym`.
    open spec fn advanced(&self, sym: u8) -> Self {
        arbitrary()
    }

    /// Hands out the next distance of `sym`, or the reason why there is none.
    fn next_distance(&mut self, sym: Symbol) -> (r: Result<Distance, DecodeError>)
        ensures
            r == old(self).answer(sym),
            *final(self) == old(self).advanced(sym),
    ;
}

/// A source that hands out the entries of a slice from first to last, whatever
/// symbol is asked for, and reports the end of the stream after the last.
pub struct SliceSource<'a> {
    /// The distances, those handed out already included.
    pub distances: &'a [Distance],
    /// How many distances were handed out.
    pub taken: usize,
}

impl<'a> SliceSource<'a> {
    /// The source at the start of `distances`.
    pub open spec fn start(distances: &'a [usize]) -> Self {
        SliceSource { distances, taken: 0 }
    }

    /// A source at the start of `distances`.
    pub fn new(distances: &'a [Distance]) -> (s: Self)
        ensures
            s == Self::start(distances),
    {
        SliceSource { distances, taken: 0 }
    }
}

impl<'a> DistanceSource for SliceSource<'a> {
    /// The next entry of the slice, or the end of the stream if all were
    /// handed out.
    open spec fn answer(&self, sym: u8) -> Result<usize, DecodeError> {
        if self.taken < self.distances@.len() {
            Ok(self.distances@[self.taken as int])
        } else {
            Err(DecodeError::EndOfStream)
        }
    }

    /// One more entry is handed out, unless all were.
    open spec fn advanced(&self, sym: u8) -> Self {
        if self.taken < self.distances@.len() {
            SliceSource { distances: self.distances, taken: (self.taken + 1) as usize }
        } else {
            *self
        }
    }

    fn next_distance(&mut self, sym: Symbol) -> (r: Result<Distance, DecodeError>) {
        if self.taken < self.distances.len() {
            let d: usize = self.distances[self.taken];
            self.taken = self.taken + 1;
            Ok(d)
        } else {
            Err(DecodeError::EndOfStream)
        }
    }
}

} // verus!

//! Token identifiers.

use vstd::prelude::*;

verus! {

/// A 160-bit token identifier, split into its leading 32 bits and its
/// trailing 128 bits.
///
/// Two tokens are the same token exactly when both parts agree, and tokens
/// are ordered by their leading bits, then by their trailing bits.
#[derive(Clone, Copy, Debug, PartialEq, Eq, Structural, PartialOrd, Ord, Hash)]
pub struct Token {
    pub high: u32,
    pub low: u128,
}

impl Token {
    /// The token with the given leading and trailing bits.
    pub fn new(high: u32, low: u128) -> (token: Token)
        ensures
            token == (Token { high, low }),
    {
        Token { high, low }
    }
}

} // verus!

//! Why an operation on a code can fail.

use vstd::prelude::*;

verus! {

/// The ways in which decoding, shortening or recovering a code fails.
#[derive(Clone, Copy, Debug, PartialEq, Eq, Structural)]
pub enum Error {
    /// The string handed to `decode` is not a full code.
    InvalidCode,
    /// The full code handed to `shorten` holds padding.
    CannotShortenPadded,
    /// The code handed to `shorten` has fewer digits than can be shortened.
    CodeTooShortToShorten,
    /// The string handed to `recover_nearest` is neither a short nor a full code.
    InvalidShortCode,
}

} // verus!

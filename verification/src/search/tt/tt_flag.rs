use vstd::prelude::*;

verus! {

/// An entry that holds nothing.
pub const EMPTY: u8 = 0;

/// The stored value is the exact score.
pub const EXACT: u8 = 1;

/// The stored value is a lower bound of the score (the search failed high).
pub const LOWER_BOUND: u8 = 2;

/// The stored value is an upper bound of the score (no move raised alpha).
pub const UPPER_BOUND: u8 = 3;

} // verus!

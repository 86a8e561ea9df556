//! The closed set of error kinds that engine and book operations report.
//! Text for a wire or HTTP boundary is rendered from these at that boundary.

use vstd::prelude::*;

verus! {

/// Why an engine or book operation did not produce a result.
#[derive(Clone, Copy, Debug, PartialEq, Eq, Structural)]
pub enum VenueError {
    /// A side token was neither `Buy` nor `Sell`.
    InvalidSide,
    /// The addressed order id is not resting in the book.
    NotFound,
    /// The top of book is not crossable; benign and expected.
    NoMatch,
    /// A mid-price was asked of a book with an empty side.
    NoPrice,
}

impl VenueError {
    /// The textual reason used in `Reject` messages and console output.
    pub fn reason(&self) -> (r: &'static str)
        ensures
            *self == VenueError::InvalidSide ==> r@ == "Invalid order side"@,
            *self == VenueError::NotFound ==> r@ == "Order not found"@,
            *self == VenueError::NoMatch ==> r@ == "No matching orders"@,
            *self == VenueError::NoPrice ==> r@ == "No price available"@,
    {
        match self {
            VenueError::InvalidSide => "Invalid order side",
            VenueError::NotFound => "Order not found",
            VenueError::NoMatch => "No matching orders",
            VenueError::NoPrice => "No price available",
        }
    }
}

} // verus!

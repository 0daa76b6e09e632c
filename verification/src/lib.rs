//! Verified core of a web service answering a series of daily puzzle endpoints.
//! Every endpoint's computation lives here with its contract; the HTTP glue,
//! database access and floating-point formatting stand outside the library.
use vstd::prelude::*;

pub mod text;
pub mod numbers;
pub mod day_one;
pub mod day_four;
pub mod day_5;
pub mod day_six;
pub mod day_seven;
pub mod day_eleven;
pub mod day_12;
pub mod day_thirteen;
pub mod day_14;
pub mod day_fifteen;
pub mod day_nineteen;
pub mod day_twenty;
pub mod day_21;
pub mod day_22;

verus! {

/// An HTTP status code, as the endpoints answer with it.
#[derive(Clone, Copy, Debug, PartialEq, Eq, Structural)]
pub struct Status {
    pub code: u16,
}

/// The endpoint that always fails: `500`.
pub fn error() -> (s: Status)
    ensures
        s.code == 500,
{
    Status { code: 500 }
}

} // verus!

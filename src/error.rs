use vstd::prelude::*;

verus! {

/// The ways in which an operation of this library can fail.
#[derive(Debug, Clone, Copy, PartialEq, Eq, Structural)]
pub enum Error {
    /// An input ran out, or a bounded output ran out of room, before the
    /// structure it describes was complete.
    UnexpectedEof,
    /// A structural or arithmetic invariant of the data does not hold.
    InvalidData,
}

} // verus!

use vstd::prelude::*;

verus! {

/// The single uniform error type of the library: every failure (definition
/// lookup, argument parsing, dependency cycles, transport trouble) surfaces
/// as a descriptive message.
#[derive(Debug, Clone)]
pub struct Error {
    pub msg: String,
}

impl Error {
    pub fn new(msg: String) -> (e: Error)
        ensures
            e.msg == msg,
    {
        Error { msg }
    }
}

} // verus!

use vstd::prelude::*;

verus! {

/// The failure conditions of the corpus engine.  Every failure is terminal
/// for the run: there is no retry anywhere in this system.
#[derive(Clone, Copy, Debug, PartialEq, Eq, Structural)]
pub enum Error {
    /// A file or the entropy source could not be read or written.
    IOError,
    /// A relation line does not split into exactly two comma-separated fields.
    MalformedRecord,
    /// A code has no outgoing neighbors at walk time.  Unreachable for any
    /// code produced by a valid filtering pass.
    EmptyAdjacency,
    /// A code beyond the known range: a lookup out of bounds, or more
    /// distinct entities of one type than the code space can hold.
    UnknownCode,
}

impl Error {
    /// A short description, for reporting at the process edge.
    pub fn message(&self) -> (r: &'static str)
        ensures
            r@.len() > 0,
    {
        proof {
            reveal_strlit("I/O failure");
            reveal_strlit("malformed relation record");
            reveal_strlit("empty adjacency list");
            reveal_strlit("unknown code");
        }
        match self {
            Error::IOError => "I/O failure",
            Error::MalformedRecord => "malformed relation record",
            Error::EmptyAdjacency => "empty adjacency list",
            Error::UnknownCode => "unknown code",
        }
    }
}

} // verus!

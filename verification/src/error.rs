use vstd::prelude::*;

verus! {

/// Why an operation of this library failed.
#[derive(Debug, Clone, Copy, PartialEq, Eq, Structural)]
pub enum Error {
    /// The data breaks a rule of the format that no valid file can break.
    OutOfSpec,
    /// Declared sizes or counts do not match the bytes that are there.
    CorruptData,
    /// The caller's arguments do not describe a possible request.
    InvalidParameter,
    /// The byte source failed to seek or read.
    Io,
}

} // verus!

use vstd::prelude::*;

verus! {

/// Every failure a codec or zone operation can report.
///
/// Codec errors: `TooLong` (a textual label component exceeds 63 bytes),
/// `LabelTooLong` (a wire length octet exceeds 63), `Truncated` (a wire
/// buffer is shorter than a declared length implies), `InvalidAddress`,
/// `InvalidName`, `InvalidLabel`, `UnknownType` and `Malformed` (text
/// grammar violations).
///
/// Zone errors: `EmptyName` (an insertion path with no labels),
/// `AlreadyExists` (a duplicate leaf) and `PathBlockedByRecord` (an attempt
/// to extend a sub-tree through an existing leaf).
#[derive(Clone, Copy, Debug, PartialEq, Eq, Structural)]
pub enum DnsError {
    TooLong,
    LabelTooLong,
    Truncated,
    InvalidAddress,
    InvalidName,
    InvalidLabel,
    UnknownType,
    Malformed,
    EmptyName,
    AlreadyExists,
    PathBlockedByRecord,
}

} // verus!

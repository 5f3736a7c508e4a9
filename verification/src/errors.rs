use vstd::prelude::*;

verus! {

/// The ways a codec call can fail. Every failure is detected at the point of
/// violation and aborts the whole call; no partial output is returned.
#[derive(Clone, Copy, Debug, PartialEq, Eq, Structural)]
pub enum CodecError {
    /// The byte buffer holds fewer bytes than the layout requires at some
    /// point of the walk, including when a length prefix promises more
    /// payload than remains.
    TruncatedInput,
    /// A byte span is not a valid encoding of its declared kind: a string
    /// payload that is not valid UTF-8, or a boolean byte other than 0 or 1.
    InvalidEncoding,
    /// During encoding, a value's shape or range disagrees with the layout
    /// kind it is matched against.
    TypeMismatch,
    /// During encoding, a struct layout names a field that the value mapping
    /// does not contain.
    MissingField,
    /// Textual input is not parseable as the interchange format at all.
    MalformedText,
}

} // verus!

use vstd::prelude::*;

verus! {

/// Everything that can go wrong while discovering, loading, or indexing a
/// dataset snapshot.
#[derive(Debug, Clone)]
pub enum As2orgError {
    /// The reader could not deliver the resource (network failure, missing
    /// file, failed decompression). Carries the reader's own message.
    Transport(String),
    /// The remote listing was fetched but contained no snapshot file names.
    NoSnapshots,
    /// A line of the dataset failed to deserialize under its record kind.
    /// Carries the offending line and a description of the failure.
    LineParse { line: String, message: String },
    /// A snapshot file name carries an eight-digit prefix that is not a
    /// calendar date. Carries the file name.
    InvalidDate(String),
    /// An AS record carries an `asn` field that is not a decimal number
    /// fitting 32 bits. Carries the field's text.
    InvalidAsn(String),
}

} // verus!

use vstd::prelude::*;

verus! {

/// A decoding failure. Every failure aborts the decode call that raised it;
/// no partial result is ever returned.
#[derive(Clone, Copy, Debug, PartialEq, Eq, Structural)]
pub enum Error {
    /// The buffer was exhausted where more bytes were required.
    UnexpectedEnd,
    /// Bytes were present but not valid for the grammar at this position
    /// (a bad tag, or string content that is not UTF-8).
    Syntax,
    /// A boolean tag was required but the leading byte was neither of the
    /// two boolean tags.
    ExpectedBoolean,
    /// A string tag was required but the leading byte selects no string
    /// length class.
    ExpectedString,
    /// The absent/unit marker was required but not found.
    ExpectedNull,
    /// The sequence-open tag was required but not found.
    ExpectedArray,
    /// The map-open tag was required but not found.
    ExpectedMap,
    /// Neither a string tag nor the map-open tag stood where an enum value
    /// was required.
    ExpectedEnum,
    /// The container-close tag was required but another byte stood there.
    ExpectedSequenceEnd,
    /// A declared string length exceeds what this platform can address.
    TooLarge,
    /// A top-level decode succeeded but left unconsumed bytes.
    TrailingCharacters,
}

} // verus!

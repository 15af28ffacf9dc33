//! The codec's failure taxonomy. The first failure aborts the whole decode or
//! encode; no partial aggregate is ever returned.

use vstd::prelude::*;

verus! {

/// Every way a decode or encode can fail.
#[derive(Clone, Copy, Debug, PartialEq, Eq, Structural)]
pub enum CodecError {
    /// Fewer bytes remain than a fixed-width read needs.
    UnexpectedEof,
    /// The leading format-version marker is not the expected constant.
    UnsupportedVersion { found: i32, expected: i32 },
    /// A variant discriminant that the enumeration table does not map.
    UnknownDiscriminant(u32),
    /// A sequence count that implies more bytes than remain in the buffer.
    TruncatedSequence,
    /// A sequence or text too long for its 4-byte length prefix.
    SequenceTooLarge,
    /// A malformed text body, such as a missing terminator unit.
    TextEncodingError,
}

impl CodecError {
    /// A short human-readable description, for the editing surface and logs.
    /// A version mismatch advises the user to supply a current-format save.
    pub fn message(&self) -> (m: &'static str)
        ensures
            self is UnsupportedVersion ==> m@
                == "wrong save version, please use a save from the last version of the game"@,
            self is UnexpectedEof ==> m@
                == "unexpected end of file: the save is corrupt or truncated"@,
            self is UnknownDiscriminant ==> m@
                == "a tagged value carries an unknown discriminant"@,
            self is TruncatedSequence ==> m@
                == "a sequence count implies more bytes than remain"@,
            self is SequenceTooLarge ==> m@
                == "a sequence is too long for its 4-byte length prefix"@,
            self is TextEncodingError ==> m@ == "a text field is malformed"@,
    {
        match self {
            CodecError::UnexpectedEof => "unexpected end of file: the save is corrupt or truncated",
            CodecError::UnsupportedVersion { .. } => {
                "wrong save version, please use a save from the last version of the game"
            },
            CodecError::UnknownDiscriminant(_) => "a tagged value carries an unknown discriminant",
            CodecError::TruncatedSequence => "a sequence count implies more bytes than remain",
            CodecError::SequenceTooLarge => "a sequence is too long for its 4-byte length prefix",
            CodecError::TextEncodingError => "a text field is malformed",
        }
    }
}

} // verus!

use vstd::prelude::*;

verus! {

/// Why an encode or a decode stopped.
#[derive(Clone, Copy, Debug, PartialEq, Eq, Structural)]
pub enum CodecError {
    /// The input ended in the middle of a field.
    UnexpectedEnd,
    /// A variable-length integer ran past five bytes or past 32 bits.
    VarintOverflow,
    /// A string's bytes are not well-formed UTF-8.
    InvalidUtf8,
    /// A run-length payload has an odd number of bytes.
    OddRunLength,
    /// A lookup-table index is not below the table's length.
    InvalidIndex,
    /// A value tag outside 0..=7.
    UnknownTag,
    /// The header is not the map magic string.
    BadMagic,
    /// A number has none of the wire's numeric encodings.
    NumberOutOfRange,
    /// A value kind that the wire cannot carry.
    UnsupportedValue,
    /// More than 255 attributes survive the filter on one element.
    TooManyAttributes,
    /// More than 65535 children on one element.
    TooManyChildren,
    /// More than 65535 strings in the lookup table.
    TooManyStrings,
    /// A name or key that the lookup table does not hold.
    MissingTableEntry,
    /// The root has no string attribute named `package`.
    MissingPackage,
    /// A string whose UTF-8 length does not fit in 32 bits.
    StringTooLong,
}

impl CodecError {
    /// A short human-readable description.
    pub fn message(&self) -> (r: String) {
        let s = match self {
            CodecError::UnexpectedEnd => "unexpected end of input",
            CodecError::VarintOverflow => "variable-length integer overflow",
            CodecError::InvalidUtf8 => "invalid UTF-8 in string",
            CodecError::OddRunLength => "odd run-length payload",
            CodecError::InvalidIndex => "invalid lookup index",
            CodecError::UnknownTag => "invalid value type",
            CodecError::BadMagic => "invalid Celeste map file",
            CodecError::NumberOutOfRange => "number out of range",
            CodecError::UnsupportedValue => "unsupported value type",
            CodecError::TooManyAttributes => "too many attributes",
            CodecError::TooManyChildren => "too many children",
            CodecError::TooManyStrings => "too many lookup strings",
            CodecError::MissingTableEntry => "string not in lookup table",
            CodecError::MissingPackage => "missing package attribute",
            CodecError::StringTooLong => "string too long",
        };
        s.to_string()
    }
}

} // verus!

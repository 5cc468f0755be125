use vstd::prelude::*;

verus! {

/// Why a conversion stopped. Every error ends the conversion: nothing is
/// retried, and output produced before the error must not be relied on.
#[derive(Debug, Clone, Copy, PartialEq, Eq, Structural)]
pub enum ParseError {
    /// The bit stream ended in the middle of a field.
    EndOfInput,
    /// A value does not fit its bit width, or an index points outside the
    /// table it refers to.
    RangeViolation,
    /// A magic number, sync pattern, reserved field or field combination is
    /// not what the format allows.
    FormatViolation,
    /// A decoded length disagrees with the length that was declared.
    SizeMismatch,
    /// More payload was written to a page than an Ogg page can carry.
    BufferExhausted,
    /// The byte source ended before a whole item could be read.
    Io,
}

impl ParseError {
    /// The text of the error, as a view of characters.
    pub open spec fn text(self) -> Seq<char> {
        match self {
            ParseError::EndOfInput => "Parse error: out of bits"@,
            ParseError::RangeViolation => "Parse error: value or index out of range"@,
            ParseError::FormatViolation => "Parse error: malformed input"@,
            ParseError::SizeMismatch => "Parse error: size mismatch"@,
            ParseError::BufferExhausted => "Parse error: ran out of space in an Ogg packet"@,
            ParseError::Io => "IO error: unexpected end of input"@,
        }
    }

    /// A human-readable description of the error.
    pub fn message(&self) -> (s: String)
        ensures
            s@ == self.text(),
    {
        match self {
            ParseError::EndOfInput => "Parse error: out of bits".to_string(),
            ParseError::RangeViolation => "Parse error: value or index out of range".to_string(),
            ParseError::FormatViolation => "Parse error: malformed input".to_string(),
            ParseError::SizeMismatch => "Parse error: size mismatch".to_string(),
            ParseError::BufferExhausted => "Parse error: ran out of space in an Ogg packet".to_string(),
            ParseError::Io => "IO error: unexpected end of input".to_string(),
        }
    }
}

} // verus!

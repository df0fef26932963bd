use vstd::prelude::*;

verus! {

/// Why an input was rejected.
#[derive(Clone, Copy, Debug, PartialEq, Eq, Structural)]
pub enum CodecError {
    /// Patch bytes are not the wire format of any operation list: a
    /// truncated record, an unknown tag, or an integer that is not in its
    /// shortest form or does not fit the machine word.
    Format,
    /// A copy operation reaches past the end of the source buffer.
    Range,
    /// A packed stream does not decode under the code it was paired with.
    CodeMismatch,
}

impl CodecError {
    /// A short description of the error.
    pub fn message(&self) -> (text: &'static str)
        ensures
            text@ == Self::message_of(*self),
    {
        match self {
            CodecError::Format => "patch bytes are not a valid operation list",
            CodecError::Range => "copy operation reaches past the end of the source",
            CodecError::CodeMismatch => "packed stream does not match the code table",
        }
    }

    /// The text that [`CodecError::message`] returns.
    pub open spec fn message_of(e: CodecError) -> Seq<char> {
        match e {
            CodecError::Format => "patch bytes are not a valid operation list"@,
            CodecError::Range => "copy operation reaches past the end of the source"@,
            CodecError::CodeMismatch => "packed stream does not match the code table"@,
        }
    }
}

} // verus!

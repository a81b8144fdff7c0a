//! The ways in which handling a line or a record can fail.

use vstd::prelude::*;

verus! {

/// Why a line was dropped or a run was ended.
#[derive(Clone, Copy, Debug, PartialEq, Eq, Structural)]
pub enum ParseError {
    /// The line is not the text of one JSON object.
    InvalidInput,
    /// The object carries an `error` field: the service reported a failure for it.
    UpstreamError,
    /// The object has no category, or its category is not among those asked for.
    FilteredOut,
    /// A record has no category field.
    MissingField,
    /// The target of a sink could not be created.
    SinkCreation,
    /// Text could not be written to the target of a sink.
    IoWrite,
    /// An earlier failure left the shared state of a run unusable.
    StateCorrupted,
}

pub type CleanResult<T> = Result<T, ParseError>;

impl ParseError {
    /// Whether this failure ends the whole run. A failure of one line only drops that line.
    pub open spec fn fatal(self) -> bool {
        self == ParseError::SinkCreation || self == ParseError::IoWrite || self
            == ParseError::StateCorrupted
    }

    /// Whether this failure ends the whole run.
    pub fn is_fatal(&self) -> (r: bool)
        ensures
            r == self.fatal(),
    {
        match self {
            ParseError::SinkCreation | ParseError::IoWrite | ParseError::StateCorrupted => true,
            ParseError::InvalidInput
            | ParseError::UpstreamError
            | ParseError::FilteredOut
            | ParseError::MissingField => false,
        }
    }
}

} // verus!

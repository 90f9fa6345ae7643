//! Conversion sessions: their ids and inputs.
use vstd::prelude::*;

verus! {

/// The id of a session.
#[derive(Debug, Clone, Copy, PartialEq, Eq, Hash)]
pub struct SessionId(pub u64);

/// What a session works on.
#[derive(Debug, Clone, PartialEq, Eq, Hash)]
pub struct SessionMetadata {
    /// The input file for the extractor and parser, a UTF-8 path.
    pub input_file: String,
}

} // verus!

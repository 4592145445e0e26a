//! Miscellaneous generation operations — GUIDs, sequence numbers, random
//! numbers — that standalone actors cannot produce themselves and that should
//! not require a full capability provider of their own.

use vstd::prelude::*;

use crate::Sample;

verus! {

/// The result of a generation request. The struct is flat rather than an
/// enum so that its serialized form stays predictable for other parsers.
#[derive(Clone, Debug, PartialEq)]
pub struct GeneratorResult {
    /// The requested GUID, if one was requested.
    pub guid: Option<String>,
    /// The requested sequence number (zero if not requested).
    pub sequence_number: u64,
    /// The requested random number (zero if not requested).
    pub random_number: u32,
}

impl Default for GeneratorResult {
    /// No GUID, and both numbers zero.
    fn default() -> (r: Self)
        ensures
            r.guid is None,
            r.sequence_number == 0,
            r.random_number == 0,
    {
        GeneratorResult { guid: None, sequence_number: 0, random_number: 0 }
    }
}

impl Sample for GeneratorResult {
    /// A result carrying a placeholder GUID and neither number.
    fn sample() -> (r: Self)
        ensures
            r.guid is Some,
            r.guid->0@ == "insert_generated_guid_here"@,
            r.sequence_number == 0,
            r.random_number == 0,
    {
        GeneratorResult {
            guid: Some("insert_generated_guid_here".to_owned()),
            sequence_number: 0,
            random_number: 0,
        }
    }
}

/// A request for generated values; kept flat for the same serialization
/// compatibility reason as [`GeneratorResult`].
#[derive(Clone, Copy, Debug, PartialEq, Eq, Structural)]
pub struct GeneratorRequest {
    /// Asks for a GUID.
    pub guid: bool,
    /// Asks for a sequence number.
    pub sequence: bool,
    /// Asks for a random number.
    pub random: bool,
    /// Minimum value for a requested random number.
    pub min: u32,
    /// Maximum value for a requested random number.
    pub max: u32,
}

} // verus!

//! Core types and verified protocol logic for actor / host-runtime
//! communication: capability descriptors and their textual form, the dispatch
//! contract, and the chunked blob-transfer protocol layered on top of it.

use vstd::prelude::*;

pub mod blobstore;
pub mod capabilities;
pub mod common;
pub mod descriptor_text;
pub mod error;
pub mod eventstreams;
pub mod extras;
pub mod http;
pub mod logging;
pub mod messaging;
pub mod registry;
pub mod transfer;

verus! {

/// A type that can produce a representative example value of itself, used by
/// tooling that generates fixtures for wire-format validation.
pub trait Sample: Sized {
    fn sample() -> Self;
}

/// The identity string under which the host runtime itself originates
/// messages.
pub fn system_actor() -> (s: &'static str)
    ensures
        s@ == "system"@,
{
    "system"
}

} // verus!

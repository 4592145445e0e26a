//! Data types for the message-broker capability, including the
//! request/reply convention: a request carries a subject, an opaque body and
//! a timeout in milliseconds, and inbox lifecycle is the responder's job, so
//! the requester never manages correlation IDs itself. A timeout elapsing
//! before a reply is an error, never a zero-value success.

use vstd::prelude::*;
use vstd::string::StrSliceExecFns;
use vstd::string::StringSliceAdditionalSpecFns;

use crate::Sample;

verus! {

/// A broker message.
#[derive(Clone, Debug, PartialEq)]
pub struct BrokerMessage {
    /// The message subject or topic.
    pub subject: String,
    /// The reply-to subject; empty when there is none.
    pub reply_to: String,
    /// The raw bytes of the message; the encoding is agreed out of band.
    pub body: Vec<u8>,
}

/// A request for the broker to perform a request-and-reply publication.
#[derive(Clone, Debug, PartialEq)]
pub struct RequestMessage {
    /// Subject on which to publish the request.
    pub subject: String,
    /// Raw body of the request message.
    pub body: Vec<u8>,
    /// How many milliseconds to await a reply before giving up with a
    /// timeout error.
    pub timeout_ms: i64,
}

impl Sample for RequestMessage {
    /// A request on a user-profile subject with a small body and a
    /// hundred-millisecond timeout.
    fn sample() -> (r: Self)
        ensures
            r.subject@ == "user.profile.175"@,
            r.body@ == "raw query bytes".spec_bytes(),
            r.timeout_ms == 100,
    {
        RequestMessage {
            subject: "user.profile.175".to_owned(),
            body: "raw query bytes".as_bytes_vec(),
            timeout_ms: 100,
        }
    }
}

} // verus!

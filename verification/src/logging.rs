//! Data types for the logging capability.

use vstd::prelude::*;

use crate::Sample;

verus! {

/// The marker with which the host prefixes log lines written on behalf of an
/// actor.
pub fn actor_log_flag() -> (s: &'static str)
    ensures
        s@ == "[ActorLog]"@,
{
    "[ActorLog]"
}

/// A request to write one log entry, attributed to an actor.
#[derive(Clone, Debug, PartialEq)]
pub struct WriteLogRequest {
    /// The log level: 0 = OFF, 1 = ERROR, 2 = WARN, 3 = INFO, 4 = DEBUG,
    /// 5 = TRACE.
    pub level: u32,
    /// The body of the log message.
    pub body: String,
    /// The line containing the message.
    pub line: u32,
    /// The source file containing the message.
    pub file: String,
    /// The name of the target of the directive.
    pub target: String,
}

impl Sample for WriteLogRequest {
    /// A debug-level entry with a short message and its source position.
    fn sample() -> (r: Self)
        ensures
            r.level == 4,
            r.body@ == "This is a debug message"@,
            r.line == 30,
            r.file@ == "lib.rs"@,
            r.target@ == "wascc_codec"@,
    {
        WriteLogRequest {
            level: 4,
            body: "This is a debug message".to_owned(),
            line: 30,
            file: "lib.rs".to_owned(),
            target: "wascc_codec".to_owned(),
        }
    }
}

} // verus!

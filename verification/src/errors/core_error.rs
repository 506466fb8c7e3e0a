//! Uniform error values spanning I/O, protocol, configuration,
//! handler-boundary and response-construction failures.

use vstd::prelude::*;
use vstd::string::StringExecFns;

verus! {

/// A categorized failure value, distinct from a normal "no match" outcome.
///
/// Every variant carries a human-readable message.  `Io` and `Protocol`
/// faults are scoped to one connection, `Handler` and `ResponseBuild` faults
/// to one request, and `InvalidConfig` is fatal to startup.
#[derive(Debug)]
pub enum CoreError {
    Io(String),
    Protocol(String),
    Handler(String),
    InvalidConfig(String),
    ResponseBuild(String),
}

impl CoreError {
    /// The message of this error, prefixed with its category.
    pub open spec fn spec_message(self) -> Seq<char> {
        match self {
            CoreError::Io(m) => "io error: "@ + m@,
            CoreError::Protocol(m) => "protocol error: "@ + m@,
            CoreError::Handler(m) => "handler error: "@ + m@,
            CoreError::InvalidConfig(m) => "invalid config: "@ + m@,
            CoreError::ResponseBuild(m) => "response build error: "@ + m@,
        }
    }

    /// Renders the error as a human-readable line.
    pub fn message(&self) -> (r: String)
        ensures
            r@ == self.spec_message(),
    {
        match self {
            CoreError::Io(m) => String::from_str("io error: ").concat(m.as_str()),
            CoreError::Protocol(m) => String::from_str("protocol error: ").concat(m.as_str()),
            CoreError::Handler(m) => String::from_str("handler error: ").concat(m.as_str()),
            CoreError::InvalidConfig(m) => String::from_str("invalid config: ").concat(
                m.as_str(),
            ),
            CoreError::ResponseBuild(m) => String::from_str("response build error: ").concat(
                m.as_str(),
            ),
        }
    }
}

} // verus!

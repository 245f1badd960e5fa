use vstd::prelude::*;

verus! {

/// The failures that abort a run. Per-domain lookup failures and per-port
/// connect failures are not errors: they are absorbed by filtering.
#[derive(Debug, Clone, PartialEq, Eq)]
pub enum Error {
    /// The command line did not carry the required target argument.
    CliUsage,
    /// The certificate-log HTTP query failed; carries the transport's message.
    Reqwest(String),
    /// The DNS resolver could not be constructed at all: a fatal environment
    /// error, distinct from a single name not resolving.
    ResolverConstruction(String),
}

impl Error {
    /// The human-readable rendering of the error.
    pub fn message(&self) -> (r: String)
        ensures
            self is CliUsage ==> r@ == "Usage: tricoder <kerkour.com>"@,
            *self matches Error::Reqwest(m) ==> r@ == "Reqwest: "@ + m@,
            *self matches Error::ResolverConstruction(m) ==> r@ == "Resolver: "@ + m@,
    {
        match self {
            Error::CliUsage => String::from_str("Usage: tricoder <kerkour.com>"),
            Error::Reqwest(m) => String::from_str("Reqwest: ").concat(m.as_str()),
            Error::ResolverConstruction(m) => String::from_str("Resolver: ").concat(m.as_str()),
        }
    }
}

} // verus!

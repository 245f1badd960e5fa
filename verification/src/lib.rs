//! Subdomain discovery for a target domain, built from certificate-transparency
//! log records, together with the bookkeeping of a TCP port scan.
//!
//! The library holds the decision logic of the pipeline: turning raw log
//! records into a deduplicated, policy-filtered candidate set, selecting the
//! candidates that resolved, and reducing probe outcomes to the set of open
//! ports. The surrounding I/O (the HTTP query of the log, DNS lookups, TCP
//! connect attempts) hands plain values in and takes plain values back.

pub mod error;
pub mod model;
pub mod ports;
pub mod subdomains;

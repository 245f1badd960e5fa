use vstd::prelude::*;

verus! {

/// A TCP port together with the outcome of a connect attempt to it.
#[derive(Debug, Clone, Copy, PartialEq, Eq, Structural)]
pub struct Port {
    /// The port number probed.
    pub port: u16,
    /// Whether the connect attempt completed before its timeout.
    pub is_open: bool,
}

/// A candidate host of the enumeration, with the ports found open on it
/// once a scan has run; before a scan, `open_ports` is empty.
#[derive(Debug, Clone)]
pub struct Subdomain {
    /// The fully-qualified domain name.
    pub domain: String,
    /// The ports found open by a scan, every entry with `is_open` true.
    pub open_ports: Vec<Port>,
}

/// One raw record of a certificate-transparency log query. `name_value` may
/// hold several newline-separated names, one per subject alternative name.
#[derive(Debug, Clone)]
pub struct CrtShEntry {
    /// The raw names field of the record.
    pub name_value: String,
}

/// The name fields carried by a sequence of log entries.
pub open spec fn entry_views(entries: Seq<CrtShEntry>) -> Seq<Seq<char>> {
    entries.map_values(|e: CrtShEntry| e.name_value@)
}

/// The domain strings of a sequence of subdomain records.
pub open spec fn domain_views(subs: Seq<Subdomain>) -> Seq<Seq<char>> {
    subs.map_values(|s: Subdomain| s.domain@)
}

/// Every recorded port was found open: closed ports are discarded, never kept.
pub open spec fn all_open(ports: Seq<Port>) -> bool {
    forall|i: int| 0 <= i < ports.len() ==> ports[i].is_open
}

} // verus!

use tricoder::error::Error;
use tricoder::model::{CrtShEntry, Port, Subdomain};
use tricoder::ports::{open_ports_from, with_scan_results};
use tricoder::subdomains::{extract, select_resolved};

#[test]
fn closed_ports_are_discarded() {
    let results = vec![
        Port { port: 80, is_open: false },
        Port { port: 443, is_open: true },
        Port { port: 22, is_open: true },
        Port { port: 8080, is_open: false },
    ];
    let open = open_ports_from(&results);
    assert_eq!(open, vec![Port { port: 443, is_open: true }, Port { port: 22, is_open: true }]);
}

#[test]
fn no_open_ports_gives_empty_list() {
    let results = vec![Port { port: 80, is_open: false }, Port { port: 25, is_open: false }];
    assert!(open_ports_from(&results).is_empty());
}

#[test]
fn scan_results_attach_to_the_host() {
    let sub = Subdomain { domain: String::from("www.example.com"), open_ports: Vec::new() };
    let results = vec![Port { port: 443, is_open: true }, Port { port: 80, is_open: false }];
    let scanned = with_scan_results(sub, &results);
    assert_eq!(scanned.domain, "www.example.com");
    assert_eq!(scanned.open_ports, vec![Port { port: 443, is_open: true }]);
}

#[test]
fn unresolved_host_comes_back_port_empty() {
    // A host whose name yields no address is never probed: the reduction is
    // handed no outcomes and the record keeps an empty port list.
    let sub = Subdomain { domain: String::from("dead.example.com"), open_ports: Vec::new() };
    let scanned = with_scan_results(sub, &Vec::new());
    assert_eq!(scanned.domain, "dead.example.com");
    assert!(scanned.open_ports.is_empty());
}

#[test]
fn error_messages_render() {
    assert_eq!(Error::CliUsage.message(), "Usage: tricoder <kerkour.com>");
    assert_eq!(Error::Reqwest(String::from("boom")).message(), "Reqwest: boom");
    assert_eq!(Error::ResolverConstruction(String::from("no config")).message(), "Resolver: no config");
}

#[test]
fn end_to_end_scenario() {
    // Certificate log knows one record; the wildcard is dropped, the target
    // folds into its own unconditional insertion.
    let target = String::from("example.com");
    let entries =
        vec![CrtShEntry { name_value: String::from("www.example.com\n*.example.com\nexample.com") }];
    let mut names = extract(&target, &entries);
    names.sort();
    assert_eq!(names, vec![String::from("example.com"), String::from("www.example.com")]);

    // Both names resolve.
    let flags = vec![true, true];
    let subs = select_resolved(&names, &flags);
    assert_eq!(subs.len(), 2);

    // A listener answers on 443 of www.example.com; nothing answers on the
    // target. Probe outcomes are reduced per host.
    let mut scanned: Vec<Subdomain> = Vec::new();
    for sub in subs {
        let outcomes = if sub.domain == "www.example.com" {
            vec![Port { port: 80, is_open: false }, Port { port: 443, is_open: true }]
        } else {
            vec![Port { port: 80, is_open: false }, Port { port: 443, is_open: false }]
        };
        scanned.push(with_scan_results(sub, &outcomes));
    }
    let www = scanned.iter().find(|s| s.domain == "www.example.com").unwrap();
    assert_eq!(www.open_ports, vec![Port { port: 443, is_open: true }]);
    let apex = scanned.iter().find(|s| s.domain == "example.com").unwrap();
    assert!(apex.open_ports.is_empty());
}

use tricoder::model::CrtShEntry;
use tricoder::subdomains::{extract, select_resolved};

fn entry(s: &str) -> CrtShEntry {
    CrtShEntry { name_value: String::from(s) }
}

fn count_of(v: &Vec<String>, x: &str) -> usize {
    v.iter().filter(|s| s.as_str() == x).count()
}

#[test]
fn dedup_across_entries() {
    let target = String::from("example.com");
    let entries = vec![
        entry("a.example.com\nb.example.com"),
        entry("a.example.com"),
        entry("  a.example.com  "),
    ];
    let r = extract(&target, &entries);
    assert_eq!(count_of(&r, "a.example.com"), 1);
    assert_eq!(count_of(&r, "b.example.com"), 1);
}

#[test]
fn target_included_with_no_entries() {
    let target = String::from("example.com");
    let entries: Vec<CrtShEntry> = Vec::new();
    let r = extract(&target, &entries);
    assert_eq!(r, vec![String::from("example.com")]);
}

#[test]
fn target_included_exactly_once() {
    let target = String::from("example.com");
    let entries = vec![entry("example.com\nwww.example.com\nexample.com")];
    let r = extract(&target, &entries);
    assert_eq!(count_of(&r, "example.com"), 1);
    assert_eq!(count_of(&r, "www.example.com"), 1);
    assert_eq!(r.len(), 2);
}

#[test]
fn wildcards_and_self_are_dropped() {
    let target = String::from("example.com");
    let entries = vec![entry("*.example.com\nexample.com\n www.example.com ")];
    let r = extract(&target, &entries);
    for s in &r {
        assert!(!s.contains('*'));
    }
    assert_eq!(count_of(&r, "www.example.com"), 1);
    assert_eq!(count_of(&r, "example.com"), 1);
    assert_eq!(r.len(), 2);
}

#[test]
fn pieces_are_trimmed() {
    let target = String::from("example.com");
    let entries = vec![entry("  a.example.com\t\n\tb.example.com  ")];
    let r = extract(&target, &entries);
    assert_eq!(count_of(&r, "a.example.com"), 1);
    assert_eq!(count_of(&r, "b.example.com"), 1);
    assert_eq!(r.len(), 3);
}

#[test]
fn empty_piece_survives_as_in_source_policy() {
    // Splitting "x.example.com\n\n" on newlines yields an empty piece, which
    // the filter does not drop: it is neither the target nor a wildcard.
    let target = String::from("example.com");
    let entries = vec![entry("x.example.com\n\n")];
    let r = extract(&target, &entries);
    assert_eq!(count_of(&r, "x.example.com"), 1);
    assert_eq!(count_of(&r, ""), 1);
}

#[test]
fn extract_is_idempotent() {
    let target = String::from("example.com");
    let entries = vec![
        entry("b.example.com\na.example.com"),
        entry("*.example.com\nexample.com"),
        entry("a.example.com\n c.example.com"),
    ];
    let mut r1 = extract(&target, &entries);
    let mut r2 = extract(&target, &entries);
    r1.sort();
    r2.sort();
    assert_eq!(r1, r2);
}

#[test]
fn select_resolved_keeps_only_flagged_names() {
    let names = vec![
        String::from("a.example.com"),
        String::from("b.example.com"),
        String::from("c.example.com"),
    ];
    let flags = vec![true, false, true];
    let subs = select_resolved(&names, &flags);
    assert_eq!(subs.len(), 2);
    assert_eq!(subs[0].domain, "a.example.com");
    assert_eq!(subs[1].domain, "c.example.com");
    assert!(subs[0].open_ports.is_empty());
    assert!(subs[1].open_ports.is_empty());
}

#[test]
fn select_resolved_with_nothing_resolving() {
    let names = vec![String::from("a.example.com")];
    let flags = vec![false];
    let subs = select_resolved(&names, &flags);
    assert!(subs.is_empty());
}

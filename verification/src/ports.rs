use vstd::prelude::*;

use crate::model::{all_open, Port, Subdomain};

verus! {

/// The subsequence of probe outcomes that found their port open, in the order
/// the outcomes were handed in.
pub open spec fn open_only(results: Seq<Port>) -> Seq<Port> {
    results.filter(|p: Port| p.is_open)
}

/// Keeps the probe outcomes whose port answered and discards the closed ones.
pub fn open_ports_from(results: &Vec<Port>) -> (r: Vec<Port>)
    ensures
        r@ == open_only(results@),
        all_open(r@),
{
    let mut r: Vec<Port> = Vec::new();
    let mut i: usize = 0;
    proof {
        assert(results@.subrange(0, 0) =~= Seq::<Port>::empty());
        reveal(Seq::filter);
    }
    while i < results.len()
        invariant
            i <= results.len(),
            r@ == open_only(results@.subrange(0, i as int)),
            all_open(r@),
        decreases results.len() - i,
    {
        let p = results[i];
        if p.is_open {
            r.push(p);
        }
        proof {
            let pre = results@.subrange(0, i as int);
            let post = results@.subrange(0, i + 1);
            assert(post.drop_last() =~= pre);
            assert(post.last() == p);
            reveal(Seq::filter);
        }
        i = i + 1;
    }
    proof {
        assert(results@.subrange(0, results@.len() as int) =~= results@);
    }
    r
}

/// Exactly the open outcomes are recorded: a probe outcome stands among the
/// kept ports iff it was among the results and found its port open. Closed
/// ports are discarded, never recorded.
pub proof fn lemma_open_only_membership(results: Seq<Port>, p: Port)
    ensures
        open_only(results).contains(p) <==> (results.contains(p) && p.is_open),
    decreases results.len(),
{
    reveal(Seq::filter);
    if results.len() > 0 {
        let rest = results.drop_last();
        let last = results.last();
        lemma_open_only_membership(rest, p);
        if last.is_open {
            assert(open_only(results) == open_only(rest).push(last));
            if open_only(results).contains(p) {
                let k = choose|k: int|
                    0 <= k < open_only(results).len() && open_only(results)[k] == p;
                if k < open_only(rest).len() {
                    assert(open_only(rest)[k] == p);
                } else {
                    assert(p == last);
                    assert(results[results.len() - 1] == p);
                }
            }
            if results.contains(p) && p.is_open {
                let i = choose|i: int| 0 <= i < results.len() && results[i] == p;
                if i < results.len() - 1 {
                    assert(rest[i] == p);
                    let k = choose|k: int|
                        0 <= k < open_only(rest).len() && open_only(rest)[k] == p;
                    assert(open_only(results)[k] == p);
                } else {
                    assert(open_only(results)[open_only(rest).len() as int] == p);
                }
            }
        } else {
            assert(open_only(results) == open_only(rest));
            if results.contains(p) && p.is_open {
                let i = choose|i: int| 0 <= i < results.len() && results[i] == p;
                assert(i < results.len() - 1);
                assert(rest[i] == p);
            }
            if open_only(rest).contains(p) {
                let i = choose|i: int| 0 <= i < rest.len() && rest[i] == p;
                assert(results[i] == p);
            }
        }
    }
}

/// The reduction step of a port scan: the host keeps its name and takes as
/// `open_ports` exactly the outcomes that found their port open. A host whose
/// name did not resolve is handed an empty outcome list and so comes back
/// with `open_ports` empty, unchanged otherwise.
pub fn with_scan_results(subdomain: Subdomain, results: &Vec<Port>) -> (r: Subdomain)
    ensures
        r.domain@ == subdomain.domain@,
        r.open_ports@ == open_only(results@),
        all_open(r.open_ports@),
{
    Subdomain { domain: subdomain.domain, open_ports: open_ports_from(results) }
}

} // verus!

//! The candidate pool builder.
//!
//! For one hostname, every configured DNS server is queried in order and
//! the addresses it returned are concatenated into a single candidate list:
//! duplicates are allowed, and the order of servers (and of each server's
//! answers) is the order in which candidates will later be probed. The
//! queries themselves happen outside the library; each server's answer, or
//! its failure, is handed in as a `ServerLookup`. One failing server aborts
//! the whole pool build: the first error is returned as such, never as an
//! empty pool.

use vstd::prelude::*;
use crate::lines::clone_bytes;
use crate::lines::lemma_bytes_deep_view;

verus! {

broadcast use lemma_bytes_deep_view;

/// Why a candidate pool could not be built, or a lookup failed.
#[derive(PartialEq, Eq, Structural, Clone, Copy, Debug)]
pub enum LookupError {
    /// The DNS server address is not a valid IP literal: a configuration
    /// error in the server list, distinct from any network failure.
    InvalidServerAddress,
    /// The query to the server failed: unreachable server, protocol error,
    /// or a name that did not resolve.
    ResolveFailed,
}

/// One candidate for a race: an IP address in textual form, and the label
/// of the DNS server that produced it (display only).
pub struct IpCandidate {
    pub ip: Vec<u8>,
    pub source: Vec<u8>,
}

impl View for IpCandidate {
    type V = (Seq<u8>, Seq<u8>);

    open spec fn view(&self) -> (Seq<u8>, Seq<u8>) {
        (self.ip@, self.source@)
    }
}

impl DeepView for IpCandidate {
    type V = (Seq<u8>, Seq<u8>);

    open spec fn deep_view(&self) -> (Seq<u8>, Seq<u8>) {
        (self.ip@, self.source@)
    }
}

/// What one DNS server contributed: its display label, and either the
/// addresses it returned or the error its query ended in.
pub struct ServerLookup {
    pub label: Vec<u8>,
    pub outcome: Result<Vec<Vec<u8>>, LookupError>,
}

/// The addresses of one server's answer, each paired with that server's
/// label, in answer order.
pub open spec fn with_label(ips: Seq<Seq<u8>>, label: Seq<u8>) -> Seq<(Seq<u8>, Seq<u8>)>
    decreases ips.len(),
{
    if ips.len() == 0 {
        Seq::empty()
    } else {
        with_label(ips.drop_last(), label).push((ips.last(), label))
    }
}

/// The full candidate list: every server's labelled answers, concatenated
/// in server order. A failed server contributes nothing here; whether it
/// aborts the build is said by `first_error`.
pub open spec fn pool_spec(results: Seq<ServerLookup>) -> Seq<(Seq<u8>, Seq<u8>)>
    decreases results.len(),
{
    if results.len() == 0 {
        Seq::empty()
    } else {
        pool_spec(results.drop_last()) + (if results.last().outcome is Ok {
            with_label(results.last().outcome->Ok_0.deep_view(), results.last().label@)
        } else {
            Seq::empty()
        })
    }
}

/// The error of the first server whose query failed.
pub open spec fn first_error(results: Seq<ServerLookup>) -> LookupError
    decreases results.len(),
{
    if results.len() == 0 {
        LookupError::ResolveFailed
    } else if results[0].outcome is Err {
        results[0].outcome->Err_0
    } else {
        first_error(results.drop_first())
    }
}

proof fn lemma_first_error_at(results: Seq<ServerLookup>, i: int)
    requires
        0 <= i < results.len(),
        forall|k: int| 0 <= k < i ==> (#[trigger] results[k]).outcome is Ok,
        results[i].outcome is Err,
    ensures
        first_error(results) == results[i].outcome->Err_0,
    decreases i,
{
    if i > 0 {
        let rest = results.drop_first();
        assert(forall|k: int| 0 <= k < rest.len() ==> rest[k] == results[k + 1]);
        lemma_first_error_at(rest, i - 1);
    }
}

/// Build the candidate pool for one hostname from each server's answer, in
/// server order, concatenating all returned addresses without
/// de-duplication. The first failing server aborts the build with its
/// error.
pub fn build_pool(results: &Vec<ServerLookup>) -> (r: Result<Vec<IpCandidate>, LookupError>)
    ensures
        r is Err <==> exists|i: int|
            0 <= i < results@.len() && (#[trigger] results@[i]).outcome is Err,
        r matches Err(e) ==> e == first_error(results@),
        r matches Ok(pool) ==> pool.deep_view() == pool_spec(results@),
{
    let mut pool: Vec<IpCandidate> = Vec::new();
    let n = results.len();
    let mut i: usize = 0;
    while i < n
        invariant
            n == results@.len(),
            i <= n,
            forall|k: int| 0 <= k < i ==> (#[trigger] results@[k]).outcome is Ok,
            pool.deep_view() == pool_spec(results@.take(i as int)),
        decreases n - i,
    {
        proof {
            assert(results@.take(i as int + 1).drop_last() =~= results@.take(i as int));
            assert(results@.take(i as int + 1).last() == results@[i as int]);
        }
        match &results[i].outcome {
            Err(e) => {
                proof {
                    lemma_first_error_at(results@, i as int);
                }
                return Err(*e);
            },
            Ok(ips) => {
                let ghost server = results@[i as int];
                let ghost label = server.label@;
                let ghost ipsv = server.outcome->Ok_0.deep_view();
                let m = ips.len();
                let mut j: usize = 0;
                proof {
                    assert(ips@ == server.outcome->Ok_0@);
                }
                while j < m
                    invariant
                        m == ips@.len(),
                        j <= m,
                        ipsv == ips.deep_view(),
                        label == results@[i as int].label@,
                        i < n == results@.len(),
                        results@[i as int].outcome is Ok,
                        ips@ == results@[i as int].outcome->Ok_0@,
                        pool.deep_view() == pool_spec(results@.take(i as int)) + with_label(
                            ipsv.take(j as int),
                            label,
                        ),
                    decreases m - j,
                {
                    let ghost prev = pool.deep_view();
                    proof {
                        assert(ips@[j as int].deep_view() == ips@[j as int]@);
                        assert(ipsv[j as int] == ips@[j as int]@);
                        assert(ipsv.take(j as int + 1).drop_last() =~= ipsv.take(j as int));
                        assert(ipsv.take(j as int + 1).last() == ipsv[j as int]);
                    }
                    let cand = IpCandidate {
                        ip: clone_bytes(&ips[j]),
                        source: clone_bytes(&results[i].label),
                    };
                    pool.push(cand);
                    proof {
                        assert(pool.deep_view() =~= prev.push((ipsv[j as int], label)));
                    }
                    j = j + 1;
                }
                proof {
                    assert(ipsv.take(m as int) =~= ipsv);
                    assert(with_label(ipsv, label) == with_label(
                        results@[i as int].outcome->Ok_0.deep_view(),
                        results@[i as int].label@,
                    ));
                }
            },
        }
        i = i + 1;
    }
    proof {
        assert(results@.take(n as int) =~= results@);
    }
    Ok(pool)
}

} // verus!

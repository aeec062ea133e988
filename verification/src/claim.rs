//! Port-claim protocol: how a registration obtains its public listener.
//!
//! A claim first checks that the subdomain is free, then the caller tries
//! up to [`crate::CLAIM_ATTEMPTS`] random ports from the configured range,
//! binding each; the machine here counts the attempts and decides the
//! outcome. A successful bind commits with an atomic compare-and-insert on
//! the registry, so of two racing claims of one subdomain exactly one wins
//! and the loser drops its listener.

use vstd::prelude::*;

use crate::registry::Registry;
use vstd::string::StringSliceAdditionalSpecFns;

verus! {

/// Why a registration attempt failed.
#[derive(Clone, Copy, PartialEq, Eq, Structural, Debug)]
pub enum ClaimError {
    /// The subdomain is registered to another tunnel.
    SubdomainTaken,
    /// Every bind attempt failed: the port pool is exhausted.
    NoFreePorts,
}

impl ClaimError {
    /// The wire reason for this failure, exactly as the protocol sends it.
    pub open spec fn spec_message(self, sub: Seq<u8>) -> Seq<u8> {
        match self {
            ClaimError::SubdomainTaken => "subdomain '".spec_bytes() + sub
                + "' is already taken".spec_bytes(),
            ClaimError::NoFreePorts => "no free ports available".spec_bytes(),
        }
    }

    /// Render the reason sent back to the client over the control channel.
    pub fn message(&self, sub: &Vec<u8>) -> (r: Vec<u8>)
        ensures
            r@ == self.spec_message(sub@),
    {
        match self {
            ClaimError::SubdomainTaken => {
                let mut out: Vec<u8> = Vec::new();
                crate::bytes::append_bytes(&mut out, "subdomain '".as_bytes());
                crate::bytes::append_bytes(&mut out, sub.as_slice());
                crate::bytes::append_bytes(&mut out, "' is already taken".as_bytes());
                out
            },
            ClaimError::NoFreePorts => {
                let mut out: Vec<u8> = Vec::new();
                crate::bytes::append_bytes(&mut out, "no free ports available".as_bytes());
                assert(out@ =~= "no free ports available".spec_bytes());
                out
            },
        }
    }
}

/// Pick a candidate port uniformly from `[min_port, max_port]`.
///
/// Relies on `fastrand::u16` over an inclusive range: the result lies in
/// the range; the call panics only on an empty range, which the
/// precondition rules out. Nothing more is promised of a random draw.
#[verifier::external_body]
fn pick_port(min_port: u16, max_port: u16) -> (r: u16)
    requires
        min_port <= max_port,
    ensures
        min_port <= r <= max_port,
{
    fastrand::u16(min_port..=max_port)
}

/// One in-progress registration claim.
pub struct PortClaim {
    subdomain: Vec<u8>,
    attempts_left: u32,
}

impl PortClaim {
    /// The subdomain this claim is for.
    pub closed spec fn sub(&self) -> Seq<u8> {
        self.subdomain@
    }

    /// Bind attempts the claim may still spend.
    pub closed spec fn remaining(&self) -> u32 {
        self.attempts_left
    }

    /// First step of a claim: refuse a subdomain that is already
    /// registered, else allow `CLAIM_ATTEMPTS` bind attempts.
    pub fn start(reg: &Registry, sub: &Vec<u8>) -> (r: Result<PortClaim, ClaimError>)
        ensures
            r is Ok <==> !reg.has_sub(sub@),
            r is Ok ==> r->Ok_0.sub() == sub@ && r->Ok_0.remaining() == crate::CLAIM_ATTEMPTS,
            r is Err ==> r->Err_0 == ClaimError::SubdomainTaken,
    {
        if reg.contains_sub(sub) {
            Err(ClaimError::SubdomainTaken)
        } else {
            Ok(
                PortClaim {
                    subdomain: crate::bytes::copy_slice(sub.as_slice()),
                    attempts_left: crate::CLAIM_ATTEMPTS,
                },
            )
        }
    }

    /// Propose the next candidate port: a uniform draw from the range.
    pub fn next_candidate(&self, min_port: u16, max_port: u16) -> (r: u16)
        requires
            min_port <= max_port,
        ensures
            min_port <= r <= max_port,
    {
        pick_port(min_port, max_port)
    }

    /// A bind on the candidate port failed: one attempt is consumed, and
    /// after the last one the claim fails with "no free ports available".
    pub fn bind_failed(&mut self) -> (r: Option<ClaimError>)
        requires
            old(self).remaining() > 0,
        ensures
            final(self).remaining() == old(self).remaining() - 1,
            final(self).sub() == old(self).sub(),
            r is Some <==> final(self).remaining() == 0,
            r is Some ==> r->Some_0 == ClaimError::NoFreePorts,
    {
        self.attempts_left = self.attempts_left - 1;
        if self.attempts_left == 0 {
            Some(ClaimError::NoFreePorts)
        } else {
            None
        }
    }

    /// A bind succeeded: record `subdomain -> port` unless another claim
    /// won the race since `start`; the loser must drop its listener.
    pub fn commit(self, reg: &mut Registry, port: u16) -> (r: Result<u16, ClaimError>)
        requires
            old(reg).wf(),
        ensures
            final(reg).wf(),
            r is Ok <==> !old(reg).has_sub(self.sub()),
            r is Ok ==> r->Ok_0 == port && final(reg).has_sub(self.sub()) && final(reg).port_of(
                self.sub(),
            ) == port,
            r is Err ==> r->Err_0 == ClaimError::SubdomainTaken && *final(reg) == *old(reg),
            forall|k: Seq<u8>|
                k != self.sub() ==> final(reg).has_sub(k) == old(reg).has_sub(k) && (
                old(reg).has_sub(k) ==> final(reg).port_of(k) == old(reg).port_of(k)),
            forall|id: u128|
                final(reg).has_pending(id) == old(reg).has_pending(id) && (old(reg).has_pending(id)
                    ==> final(reg).pending_of(id) == old(reg).pending_of(id)),
    {
        if reg.insert_sub(&self.subdomain, port) {
            Ok(port)
        } else {
            Err(ClaimError::SubdomainTaken)
        }
    }
}

/// Index of the first successful bind in a run of outcomes, or `-1` if
/// every attempt failed.
pub open spec fn first_bound(binds: Seq<Option<u16>>) -> int
    decreases binds.len(),
{
    if binds.len() == 0 {
        -1
    } else if binds[0] is Some {
        0
    } else {
        let r = first_bound(binds.skip(1));
        if r < 0 {
            -1
        } else {
            r + 1
        }
    }
}

/// `first_bound` finds a success when one exists, and nothing before it.
pub proof fn lemma_first_bound(binds: Seq<Option<u16>>)
    ensures
        first_bound(binds) >= 0 ==> {
            &&& first_bound(binds) < binds.len()
            &&& binds[first_bound(binds)] is Some
            &&& forall|j: int| 0 <= j < first_bound(binds) ==> binds[j] is None
        },
        first_bound(binds) < 0 ==> forall|j: int| 0 <= j < binds.len() ==> binds[j] is None,
    decreases binds.len(),
{
    if binds.len() > 0 && binds[0] is None {
        lemma_first_bound(binds.skip(1));
        assert forall|j: int|
            0 <= j < binds.len() && first_bound(binds) < 0 implies binds[j] is None by {
            if j > 0 {
                assert(binds.skip(1)[j - 1] == binds[j]);
            }
        }
        if first_bound(binds) >= 0 {
            assert(binds.skip(1)[first_bound(binds) - 1] == binds[first_bound(binds)]);
            assert forall|j: int| 0 <= j < first_bound(binds) implies binds[j] is None by {
                if j > 0 {
                    assert(binds.skip(1)[j - 1] == binds[j]);
                }
            }
        }
    }
}

/// The whole claim protocol against a given run of bind outcomes, one
/// per attempt the caller would make: `Some(port)` where that bind
/// succeeded, `None` where it failed. A taken subdomain is refused up
/// front; otherwise the first successful bind wins and is recorded;
/// `CLAIM_ATTEMPTS` consecutive failures return "no free ports
/// available" — and never panic. The network driver interleaves real
/// binds with the same machine, one `bind_failed` or `commit` per
/// outcome.
pub fn resolve_claim(reg: &mut Registry, sub: &Vec<u8>, binds: &Vec<Option<u16>>) -> (r: Result<
    u16,
    ClaimError,
>)
    requires
        old(reg).wf(),
        binds@.len() == crate::CLAIM_ATTEMPTS,
    ensures
        final(reg).wf(),
        old(reg).has_sub(sub@) ==> r == Result::<u16, ClaimError>::Err(
            ClaimError::SubdomainTaken,
        ) && *final(reg) == *old(reg),
        (!old(reg).has_sub(sub@) && first_bound(binds@) >= 0) ==> (r matches Ok(p)
            && binds@[first_bound(binds@)] == Some(p) && final(reg).has_sub(sub@)
            && final(reg).port_of(sub@) == p),
        (!old(reg).has_sub(sub@) && first_bound(binds@) < 0) ==> r == Result::<u16,
            ClaimError,
        >::Err(ClaimError::NoFreePorts) && *final(reg) == *old(reg),
        forall|k: Seq<u8>|
            k != sub@ ==> final(reg).has_sub(k) == old(reg).has_sub(k) && (old(reg).has_sub(k)
                ==> final(reg).port_of(k) == old(reg).port_of(k)),
        forall|id: u128|
            final(reg).has_pending(id) == old(reg).has_pending(id) && (old(reg).has_pending(id)
                ==> final(reg).pending_of(id) == old(reg).pending_of(id)),
{
    proof {
        lemma_first_bound(binds@);
    }
    let mut claim = match PortClaim::start(reg, sub) {
        Err(e) => {
            return Err(e);
        },
        Ok(c) => c,
    };
    let mut i: usize = 0;
    while i < binds.len()
        invariant
            old(reg).wf(),
            !old(reg).has_sub(sub@),
            *reg == *old(reg),
            binds@.len() == crate::CLAIM_ATTEMPTS,
            i <= binds@.len(),
            claim.sub() == sub@,
            claim.remaining() == crate::CLAIM_ATTEMPTS - i,
            forall|j: int| 0 <= j < i ==> binds@[j] is None,
        decreases binds@.len() - i,
    {
        match binds[i] {
            Some(port) => {
                proof {
                    lemma_first_bound(binds@);
                    assert(binds@[i as int] is Some);
                    assert(first_bound(binds@) == i as int);
                }
                return claim.commit(reg, port);
            },
            None => {
                if let Some(e) = claim.bind_failed() {
                    proof {
                        lemma_first_bound(binds@);
                        assert(i as int == binds@.len() - 1);
                        assert(first_bound(binds@) < 0) by {
                            if first_bound(binds@) >= 0 {
                                assert(binds@[first_bound(binds@)] is Some);
                            }
                        }
                    }
                    return Err(e);
                }
                i = i + 1;
            },
        }
    }
    proof {
        lemma_first_bound(binds@);
        if first_bound(binds@) >= 0 {
            assert(binds@[first_bound(binds@)] is Some);
        }
    }
    Err(ClaimError::NoFreePorts)
}

} // verus!

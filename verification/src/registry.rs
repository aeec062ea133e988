//! In-memory registry shared by all control-connection handlers.
//!
//! Two independent association lists: `subdomain -> public port`, and
//! `pending id -> parked inbound connection`. The well-formedness invariant
//! keeps each key unique, so a subdomain owns at most one tunnel and a
//! pending id at most one socket. Taking a pending entry removes it, which
//! makes delivery of a parked connection at-most-once.
//!
//! The registry itself is single-threaded; callers that share it across
//! tasks serialize access with a lock, which the design explicitly allows.
//!
//! Parked sockets cannot live here, so a pending entry stores an opaque
//! `token` under which the caller keeps the actual socket, together with
//! the `deadline` (in milliseconds) at which the reaper may discard it.

use vstd::prelude::*;

use crate::bytes::bytes_eq;

verus! {

/// What the registry remembers about one parked inbound connection.
#[derive(Clone, Copy, PartialEq, Eq, Structural, Debug)]
pub struct PendingSlot {
    /// Caller-chosen handle for the parked socket.
    pub token: u64,
    /// Moment (ms since an arbitrary origin) from which the entry is stale.
    pub deadline: u64,
}

pub struct Registry {
    subdomains: Vec<(Vec<u8>, u16)>,
    pending: Vec<(u128, PendingSlot)>,
}

impl Registry {
    /// Keys are unique in both tables: at most one entry per subdomain and
    /// at most one entry per pending id, at every instant.
    pub closed spec fn wf(&self) -> bool {
        &&& forall|i: int, j: int|
            0 <= i < j < self.subdomains@.len() ==> self.subdomains@[i].0@ != self.subdomains@[j].0@
        &&& forall|i: int, j: int|
            0 <= i < j < self.pending@.len() ==> self.pending@[i].0 != self.pending@[j].0
    }

    /// Is `key` a registered subdomain?
    pub closed spec fn has_sub(&self, key: Seq<u8>) -> bool {
        exists|i: int| 0 <= i < self.subdomains@.len() && self.subdomains@[i].0@ == key
    }

    /// The public port registered under `key`.
    pub closed spec fn port_of(&self, key: Seq<u8>) -> u16 {
        self.subdomains@[choose|i: int|
            0 <= i < self.subdomains@.len() && self.subdomains@[i].0@ == key].1
    }

    /// Is `id` a parked pending connection?
    pub closed spec fn has_pending(&self, id: u128) -> bool {
        exists|i: int| 0 <= i < self.pending@.len() && self.pending@[i].0 == id
    }

    /// The slot parked under `id`.
    pub closed spec fn pending_of(&self, id: u128) -> PendingSlot {
        self.pending@[choose|i: int| 0 <= i < self.pending@.len() && self.pending@[i].0 == id].1
    }

    pub fn new() -> (r: Registry)
        ensures
            r.wf(),
            forall|k: Seq<u8>| !r.has_sub(k),
            forall|id: u128| !r.has_pending(id),
    {
        Registry { subdomains: Vec::new(), pending: Vec::new() }
    }

    /// Membership test used by the claim protocol's first step.
    pub fn contains_sub(&self, key: &Vec<u8>) -> (r: bool)
        ensures
            r == self.has_sub(key@),
    {
        let mut i: usize = 0;
        while i < self.subdomains.len()
            invariant
                i <= self.subdomains@.len(),
                forall|j: int| 0 <= j < i ==> self.subdomains@[j].0@ != key@,
            decreases self.subdomains@.len() - i,
        {
            if bytes_eq(&self.subdomains[i].0, key) {
                return true;
            }
            i = i + 1;
        }
        false
    }

    /// Atomic compare-and-insert: record `key -> port` unless `key` is
    /// already registered. Exactly one of two concurrent claims of the same
    /// subdomain can succeed, because the loser finds the winner's entry.
    pub fn insert_sub(&mut self, key: &Vec<u8>, port: u16) -> (r: bool)
        requires
            old(self).wf(),
        ensures
            final(self).wf(),
            r == !old(self).has_sub(key@),
            r ==> final(self).has_sub(key@) && final(self).port_of(key@) == port,
            !r ==> *final(self) == *old(self),
            forall|k: Seq<u8>|
                k != key@ ==> final(self).has_sub(k) == old(self).has_sub(k) && (
                old(self).has_sub(k) ==> final(self).port_of(k) == old(self).port_of(k)),
            forall|id: u128|
                final(self).has_pending(id) == old(self).has_pending(id) && (old(self).has_pending(
                    id,
                ) ==> final(self).pending_of(id) == old(self).pending_of(id)),
    {
        if self.contains_sub(key) {
            return false;
        }
        let key_copy = crate::bytes::copy_slice(key.as_slice());
        self.subdomains.push((key_copy, port));
        proof {
            let n = self.subdomains@.len() - 1;
            assert(self.subdomains@[n].0@ == key@);
            assert forall|k: Seq<u8>| k != key@ implies self.has_sub(k) == old(self).has_sub(k) by {
                if old(self).has_sub(k) {
                    let i = choose|i: int|
                        0 <= i < old(self).subdomains@.len() && old(self).subdomains@[i].0@ == k;
                    assert(self.subdomains@[i].0@ == k);
                }
                if self.has_sub(k) {
                    let i = choose|i: int|
                        0 <= i < self.subdomains@.len() && self.subdomains@[i].0@ == k;
                    assert(i < n);
                    assert(old(self).subdomains@[i].0@ == k);
                }
            }
        }
        true
    }

    /// Release a subdomain registration (tunnel termination).
    #[verifier::rlimit(30)]
    pub fn remove_sub(&mut self, key: &Vec<u8>)
        requires
            old(self).wf(),
        ensures
            final(self).wf(),
            !final(self).has_sub(key@),
            forall|k: Seq<u8>|
                k != key@ ==> final(self).has_sub(k) == old(self).has_sub(k) && (
                old(self).has_sub(k) ==> final(self).port_of(k) == old(self).port_of(k)),
            forall|id: u128|
                final(self).has_pending(id) == old(self).has_pending(id) && (old(self).has_pending(
                    id,
                ) ==> final(self).pending_of(id) == old(self).pending_of(id)),
    {
        let mut out: Vec<(Vec<u8>, u16)> = Vec::new();
        let mut i: usize = 0;
        while i < self.subdomains.len()
            invariant
                i <= self.subdomains@.len(),
                old(self).wf(),
                self == old(self),
                forall|a: int, b: int| 0 <= a < b < out@.len() ==> out@[a].0@ != out@[b].0@,
                forall|a: int| 0 <= a < out@.len() ==> out@[a].0@ != key@,
                forall|a: int|
                    0 <= a < out@.len() ==> exists|b: int|
                        0 <= b < i && self.subdomains@[b].0@ == (#[trigger] out@[a]).0@
                            && self.subdomains@[b].1 == out@[a].1,
                forall|b: int|
                    0 <= b < i && (#[trigger] self.subdomains@[b]).0@ != key@ ==> exists|a: int|
                        0 <= a < out@.len() && (#[trigger] out@[a]).0@ == self.subdomains@[b].0@
                            && out@[a].1 == self.subdomains@[b].1,
            decreases self.subdomains@.len() - i,
        {
            if !bytes_eq(&self.subdomains[i].0, key) {
                let entry_key = crate::bytes::copy_slice(self.subdomains[i].0.as_slice());
                let port = self.subdomains[i].1;
                let ghost out_pre = out@;
                out.push((entry_key, port));
                proof {
                    assert(out@ == out_pre.push((entry_key, port)));
                    assert(out@[out@.len() - 1].0@ == self.subdomains@[i as int].0@);
                    assert(out@[out@.len() - 1].1 == self.subdomains@[i as int].1);
                    assert forall|a: int, b: int|
                        0 <= a < b < out@.len() implies out@[a].0@ != out@[b].0@ by {
                        if b == out@.len() - 1 {
                            let ob = choose|ob: int|
                                0 <= ob < i && self.subdomains@[ob].0@ == out_pre[a].0@
                                    && self.subdomains@[ob].1 == out_pre[a].1;
                            assert(out@[a] == out_pre[a]);
                        }
                    }
                    assert forall|b: int|
                        0 <= b < i + 1 && (#[trigger] self.subdomains@[b]).0@ != key@ implies
                        exists|a: int|
                            0 <= a < out@.len() && (#[trigger] out@[a]).0@
                                == self.subdomains@[b].0@ && out@[a].1 == self.subdomains@[b].1
                        by {
                        if b == i as int {
                            assert((out@[out@.len() - 1]).0@ == self.subdomains@[b].0@
                                && out@[out@.len() - 1].1 == self.subdomains@[b].1);
                        } else {
                            let a = choose|a: int|
                                0 <= a < out_pre.len() && (#[trigger] out_pre[a]).0@
                                    == self.subdomains@[b].0@ && out_pre[a].1
                                    == self.subdomains@[b].1;
                            assert(out@[a] == out_pre[a]);
                            assert((out@[a]).0@ == self.subdomains@[b].0@ && out@[a].1
                                == self.subdomains@[b].1);
                        }
                    }
                    assert forall|a: int|
                        0 <= a < out@.len() implies exists|b: int|
                            0 <= b < i + 1 && self.subdomains@[b].0@ == (#[trigger] out@[a]).0@
                                && self.subdomains@[b].1 == out@[a].1 by {
                        if a == out@.len() - 1 {
                            assert(self.subdomains@[i as int].0@ == out@[a].0@
                                && self.subdomains@[i as int].1 == out@[a].1);
                        } else {
                            let b = choose|b: int|
                                0 <= b < i && self.subdomains@[b].0@ == (#[trigger] out_pre[a]).0@
                                    && self.subdomains@[b].1 == out_pre[a].1;
                            assert(out@[a] == out_pre[a]);
                        }
                    }
                }
            }
            i = i + 1;
        }
        let ghost pre = *self;
        self.subdomains = out;
        proof {
            assert(self.pending@ == pre.pending@);
            assert(self.subdomains@ == out@);
            if self.has_sub(key@) {
                let a = choose|a: int|
                    0 <= a < self.subdomains@.len() && self.subdomains@[a].0@ == key@;
            }
            assert forall|k: Seq<u8>|
                k != key@ implies self.has_sub(k) == pre.has_sub(k) && (pre.has_sub(k)
                    ==> self.port_of(k) == pre.port_of(k)) by {
                if pre.has_sub(k) {
                    let b = choose|b: int|
                        0 <= b < pre.subdomains@.len() && pre.subdomains@[b].0@ == k;
                    Self::lemma_sub_at(pre, b);
                    let a = choose|a: int|
                        0 <= a < out@.len() && (#[trigger] out@[a]).0@ == pre.subdomains@[b].0@
                            && out@[a].1 == pre.subdomains@[b].1;
                    assert(self.subdomains@[a].0@ == k);
                    Self::lemma_sub_at(*self, a);
                }
                if self.has_sub(k) {
                    let a = choose|a: int|
                        0 <= a < self.subdomains@.len() && self.subdomains@[a].0@ == k;
                    let b = choose|b: int|
                        0 <= b < pre.subdomains@.len() && (#[trigger] pre.subdomains@[b]).0@
                            == out@[a].0@ && pre.subdomains@[b].1 == out@[a].1;
                    assert(pre.subdomains@[b].0@ == k);
                }
            }
            assert forall|id: u128|
                self.has_pending(id) == pre.has_pending(id) && (pre.has_pending(id)
                    ==> self.pending_of(id) == pre.pending_of(id)) by {
            }
        }
    }

    /// Park a pending connection: `id -> (token, deadline)`. A fresh UUIDv4
    /// id never collides in practice; if it does, the newer entry replaces
    /// the older one, as a plain map insert would.
    pub fn insert_pending(&mut self, id: u128, slot: PendingSlot)
        requires
            old(self).wf(),
        ensures
            final(self).wf(),
            final(self).has_pending(id),
            final(self).pending_of(id) == slot,
            forall|i: u128|
                i != id ==> final(self).has_pending(i) == old(self).has_pending(i) && (
                old(self).has_pending(i) ==> final(self).pending_of(i) == old(self).pending_of(i)),
            forall|k: Seq<u8>|
                final(self).has_sub(k) == old(self).has_sub(k) && (old(self).has_sub(k)
                    ==> final(self).port_of(k) == old(self).port_of(k)),
    {
        self.take_pending(id);
        let ghost mid = *self;
        self.pending.push((id, slot));
        proof {
            let n = mid.pending@.len() as int;
            assert(self.pending@ == mid.pending@.push((id, slot)));
            assert(self.subdomains@ == mid.subdomains@);
            assert forall|a: int, b: int|
                0 <= a < b < self.pending@.len() implies self.pending@[a].0
                != self.pending@[b].0 by {
                if b < n {
                    assert(mid.pending@[a].0 != mid.pending@[b].0);
                } else {
                    assert(self.pending@[a] == mid.pending@[a]);
                    if self.pending@[a].0 == id {
                        assert(mid.has_pending(id));
                    }
                }
            }
            assert(self.pending@[n].0 == id);
            assert(self.has_pending(id));
            Self::lemma_pending_at(*self, n);
            assert forall|i2: u128| i2 != id implies self.has_pending(i2) == mid.has_pending(i2)
                && (mid.has_pending(i2) ==> self.pending_of(i2) == mid.pending_of(i2)) by {
                if mid.has_pending(i2) {
                    let b = choose|b: int| 0 <= b < n && mid.pending@[b].0 == i2;
                    assert(self.pending@[b].0 == i2);
                    assert(self.has_pending(i2));
                    Self::lemma_pending_at(mid, b);
                    Self::lemma_pending_at(*self, b);
                }
                if self.has_pending(i2) {
                    let c = choose|c: int|
                        0 <= c < self.pending@.len() && self.pending@[c].0 == i2;
                    assert(c != n);
                    assert(mid.pending@[c].0 == i2);
                    assert(mid.has_pending(i2));
                }
            }
        }
    }

    /// The entry at a valid index is the one `pending_of` yields: with
    /// unique ids, lookup by id agrees with lookup by position.
    proof fn lemma_pending_at(r: Registry, idx: int)
        requires
            r.wf(),
            0 <= idx < r.pending@.len(),
        ensures
            r.has_pending(r.pending@[idx].0),
            r.pending_of(r.pending@[idx].0) == r.pending@[idx].1,
    {
        let id = r.pending@[idx].0;
        assert(r.has_pending(id));
        let c = choose|c: int| 0 <= c < r.pending@.len() && r.pending@[c].0 == id;
        if c != idx {
            if c < idx {
                assert(r.pending@[c].0 != r.pending@[idx].0);
            } else {
                assert(r.pending@[idx].0 != r.pending@[c].0);
            }
        }
    }

    /// Exclusive take: remove and return the slot parked under `id`.
    ///
    /// Succeeds exactly when `id` is parked, and afterwards `id` is parked
    /// no longer — so of any number of takes of the same id, at most the
    /// first can succeed.
    #[verifier::rlimit(30)]
    pub fn take_pending(&mut self, id: u128) -> (r: Option<PendingSlot>)
        requires
            old(self).wf(),
        ensures
            final(self).wf(),
            r is Some <==> old(self).has_pending(id),
            r is Some ==> r->Some_0 == old(self).pending_of(id),
            !final(self).has_pending(id),
            forall|i: u128|
                i != id ==> final(self).has_pending(i) == old(self).has_pending(i) && (
                old(self).has_pending(i) ==> final(self).pending_of(i) == old(self).pending_of(i)),
            forall|k: Seq<u8>|
                final(self).has_sub(k) == old(self).has_sub(k) && (old(self).has_sub(k)
                    ==> final(self).port_of(k) == old(self).port_of(k)),
    {
        let mut out: Vec<(u128, PendingSlot)> = Vec::new();
        let mut got: Option<PendingSlot> = None;
        let mut i: usize = 0;
        while i < self.pending.len()
            invariant
                i <= self.pending@.len(),
                old(self).wf(),
                self == old(self),
                forall|a: int, b: int| 0 <= a < b < out@.len() ==> out@[a].0 != out@[b].0,
                forall|a: int| 0 <= a < out@.len() ==> out@[a].0 != id,
                forall|a: int|
                    0 <= a < out@.len() ==> exists|b: int| 0 <= b < i && self.pending@[b]
                        == #[trigger] out@[a],
                forall|b: int|
                    0 <= b < i && self.pending@[b].0 != id ==> exists|a: int|
                        0 <= a < out@.len() && #[trigger] out@[a] == self.pending@[b],
                got is Some <==> exists|b: int| 0 <= b < i && self.pending@[b].0 == id,
                got is Some ==> old(self).has_pending(id) && got->Some_0 == old(self).pending_of(
                    id,
                ),
            decreases self.pending@.len() - i,
        {
            let (entry_id, slot) = self.pending[i];
            proof {
                assert(self.pending@[i as int] == (entry_id, slot));
            }
            if entry_id == id {
                got = Some(slot);
                proof {
                    Self::lemma_pending_at(*self, i as int);
                }
            } else {
                let ghost out_pre = out@;
                out.push((entry_id, slot));
                proof {
                    assert(out@ == out_pre.push((entry_id, slot)));
                    assert(out@[out@.len() - 1] == self.pending@[i as int]);
                    assert forall|a: int, b: int|
                        0 <= a < b < out@.len() implies out@[a].0 != out@[b].0 by {
                        if b == out@.len() - 1 {
                            let ob = choose|ob: int|
                                0 <= ob < i && self.pending@[ob] == out_pre[a];
                            assert(out@[a] == out_pre[a]);
                        }
                    }
                    assert forall|b: int|
                        0 <= b < i + 1 && self.pending@[b].0 != id implies exists|a: int|
                            0 <= a < out@.len() && #[trigger] out@[a] == self.pending@[b] by {
                        if b == i as int {
                            assert(out@[out@.len() - 1] == self.pending@[b]);
                        } else {
                            let a = choose|a: int|
                                0 <= a < out_pre.len() && #[trigger] out_pre[a]
                                    == self.pending@[b];
                            assert(out@[a] == self.pending@[b]);
                        }
                    }
                    assert forall|a: int|
                        0 <= a < out@.len() implies exists|b: int|
                            0 <= b < i + 1 && self.pending@[b] == #[trigger] out@[a] by {
                        if a == out@.len() - 1 {
                            assert(self.pending@[i as int] == out@[a]);
                        } else {
                            let b = choose|b: int|
                                0 <= b < i && self.pending@[b] == #[trigger] out_pre[a];
                            assert(out@[a] == out_pre[a]);
                        }
                    }
                }
            }
            i = i + 1;
        }
        let ghost pre = *self;
        self.pending = out;
        proof {
            assert(self.subdomains@ == pre.subdomains@);
            assert(self.pending@ == out@);
            assert forall|k: Seq<u8>|
                self.has_sub(k) == pre.has_sub(k) && (pre.has_sub(k) ==> self.port_of(k)
                    == pre.port_of(k)) by {
                if pre.has_sub(k) {
                    let b = choose|b: int|
                        0 <= b < pre.subdomains@.len() && pre.subdomains@[b].0@ == k;
                    assert(self.subdomains@[b].0@ == k);
                    Self::lemma_sub_at(pre, b);
                    Self::lemma_sub_at(*self, b);
                }
                if self.has_sub(k) {
                    let b = choose|b: int|
                        0 <= b < self.subdomains@.len() && self.subdomains@[b].0@ == k;
                    assert(pre.subdomains@[b].0@ == k);
                }
            }
            if self.has_pending(id) {
                let a = choose|a: int| 0 <= a < out@.len() && out@[a].0 == id;
            }
            assert forall|i2: u128|
                i2 != id implies self.has_pending(i2) == pre.has_pending(i2) && (pre.has_pending(
                i2,
            ) ==> self.pending_of(i2) == pre.pending_of(i2)) by {
                if pre.has_pending(i2) {
                    let b = choose|b: int|
                        0 <= b < pre.pending@.len() && pre.pending@[b].0 == i2;
                    Self::lemma_pending_at(pre, b);
                    let a = choose|a: int|
                        0 <= a < out@.len() && #[trigger] out@[a] == pre.pending@[b];
                    assert(self.pending@[a] == pre.pending@[b]);
                    Self::lemma_pending_at(*self, a);
                }
                if self.has_pending(i2) {
                    let a = choose|a: int|
                        0 <= a < self.pending@.len() && self.pending@[a].0 == i2;
                    let b = choose|b: int|
                        0 <= b < pre.pending@.len() && #[trigger] pre.pending@[b] == out@[a];
                    assert(pre.pending@[b].0 == i2);
                }
            }
        }
        got
    }

    /// The entry at a valid index is the one `port_of` yields: with unique
    /// subdomains, lookup by key agrees with lookup by position.
    proof fn lemma_sub_at(r: Registry, idx: int)
        requires
            r.wf(),
            0 <= idx < r.subdomains@.len(),
        ensures
            r.has_sub(r.subdomains@[idx].0@),
            r.port_of(r.subdomains@[idx].0@) == r.subdomains@[idx].1,
    {
        let k = r.subdomains@[idx].0@;
        assert(r.has_sub(k));
        let c = choose|c: int| 0 <= c < r.subdomains@.len() && r.subdomains@[c].0@ == k;
        if c != idx {
            if c < idx {
                assert(r.subdomains@[c].0@ != r.subdomains@[idx].0@);
            } else {
                assert(r.subdomains@[idx].0@ != r.subdomains@[c].0@);
            }
        }
    }

    /// Reaper step for one id at moment `now`: remove the entry if it is
    /// still parked and its deadline has passed. Returns the removed slot.
    /// A no-op when the entry was already taken or is not yet stale.
    pub fn reap_pending(&mut self, id: u128, now: u64) -> (r: Option<PendingSlot>)
        requires
            old(self).wf(),
        ensures
            final(self).wf(),
            r is Some <==> (old(self).has_pending(id) && old(self).pending_of(id).deadline <= now),
            r is Some ==> r->Some_0 == old(self).pending_of(id) && !final(self).has_pending(id),
            r is None ==> *final(self) == *old(self),
            forall|i: u128|
                i != id ==> final(self).has_pending(i) == old(self).has_pending(i) && (
                old(self).has_pending(i) ==> final(self).pending_of(i) == old(self).pending_of(i)),
            forall|k: Seq<u8>|
                final(self).has_sub(k) == old(self).has_sub(k) && (old(self).has_sub(k)
                    ==> final(self).port_of(k) == old(self).port_of(k)),
    {
        let stale = match self.peek_pending(id) {
            Some(slot) => slot.deadline <= now,
            None => false,
        };
        if stale {
            self.take_pending(id)
        } else {
            None
        }
    }

    /// Read the slot parked under `id` without removing it.
    pub fn peek_pending(&self, id: u128) -> (r: Option<PendingSlot>)
        requires
            self.wf(),
        ensures
            r is Some <==> self.has_pending(id),
            r is Some ==> r->Some_0 == self.pending_of(id),
    {
        let mut i: usize = 0;
        while i < self.pending.len()
            invariant
                self.wf(),
                i <= self.pending@.len(),
                forall|j: int| 0 <= j < i ==> self.pending@[j].0 != id,
            decreases self.pending@.len() - i,
        {
            let (entry_id, slot) = self.pending[i];
            proof {
                assert(self.pending@[i as int] == (entry_id, slot));
            }
            if entry_id == id {
                proof {
                    Self::lemma_pending_at(*self, i as int);
                }
                return Some(slot);
            }
            i = i + 1;
        }
        None
    }
}

} // verus!

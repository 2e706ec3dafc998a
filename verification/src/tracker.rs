//! The tracker's membership registry with liveness expiry, and the
//! dispatch of the three requests the tracker answers.
//!
//! The registry maps peer listening endpoints to the time they last joined
//! or heartbeat, in milliseconds. An entry is live while less than
//! `EXPIRE_MILLIS` has passed since then; a sweep removes exactly the
//! entries that are no longer live. The unverified shell owns the sockets
//! and the clock and hands both over as plain values.

use vstd::prelude::*;

use crate::messages::{ReqModel, Request, RespModel, Response};
use crate::util::{bytes_eq, copy_bytes, views_of};

verus! {

/// Milliseconds a member stays live after its last join or heartbeat.
pub const EXPIRE_MILLIS: u64 = 5000;

/// Whether an entry last seen at `last_seen` is still live at `now`.
pub open spec fn live_at(last_seen: u64, now: u64) -> bool {
    now < last_seen + EXPIRE_MILLIS
}

/// One registry entry: a peer's listening endpoint and when it last proved life.
struct TrackEntry {
    addr: Vec<u8>,
    last_seen: u64,
}

/// The tracker's registry of swarm members.
pub struct Tracker {
    entries: Vec<TrackEntry>,
}

/// The relation between a registry before and after recording that `addr`
/// proved life at `now`: the entry for `addr` now reads `now`, every other
/// entry is untouched, and no entry is lost.
pub open spec fn upserted(pre: Tracker, post: Tracker, addr: Seq<u8>, now: u64) -> bool {
    &&& forall|a: Seq<u8>| post.contains_addr(a) <==> pre.contains_addr(a) || a == addr
    &&& post.last_seen_of(addr) == now
    &&& forall|a: Seq<u8>|
        a != addr && pre.contains_addr(a) ==> post.last_seen_of(a) == pre.last_seen_of(a)
}

/// The relation between a registry before and after a sweep at `now`: the
/// entries that survive are exactly the live ones, unchanged.
pub open spec fn swept(pre: Tracker, post: Tracker, now: u64) -> bool {
    &&& forall|a: Seq<u8>|
        post.contains_addr(a) <==> pre.contains_addr(a) && live_at(pre.last_seen_of(a), now)
    &&& forall|a: Seq<u8>|
        post.contains_addr(a) ==> post.last_seen_of(a) == pre.last_seen_of(a)
}

impl Tracker {
    /// How many endpoints are registered.
    pub closed spec fn len(self) -> nat {
        self.entries@.len()
    }

    /// The endpoint of the entry at `i`.
    pub closed spec fn addr_at(self, i: int) -> Seq<u8> {
        self.entries@[i].addr@
    }

    /// Whether `a` is registered.
    pub closed spec fn contains_addr(self, a: Seq<u8>) -> bool {
        exists|i: int| 0 <= i < self.len() && self.addr_at(i) == a
    }

    /// The position of `a` in the registry.
    pub closed spec fn index_of(self, a: Seq<u8>) -> int {
        choose|i: int| 0 <= i < self.len() && self.addr_at(i) == a
    }

    /// When `a` last joined or heartbeat.
    pub closed spec fn last_seen_of(self, a: Seq<u8>) -> u64 {
        self.entries@[self.index_of(a)].last_seen
    }

    /// Entries name pairwise distinct endpoints.
    pub closed spec fn wf(self) -> bool {
        forall|i: int, j: int| 0 <= i < j < self.len() ==> self.addr_at(i) != self.addr_at(j)
    }

    /// With distinct endpoints, any position holding `a` is the position of `a`.
    proof fn lemma_index_unique(self, a: Seq<u8>, j: int)
        requires
            self.wf(),
            0 <= j < self.len(),
            self.addr_at(j) == a,
        ensures
            self.contains_addr(a),
            self.index_of(a) == j,
            self.last_seen_of(a) == self.entries@[j].last_seen,
    {
        assert(self.contains_addr(a));
        let i = self.index_of(a);
        if i < j {
            assert(self.addr_at(i) != self.addr_at(j));
        } else if j < i {
            assert(self.addr_at(j) != self.addr_at(i));
        }
    }

    /// An empty registry.
    pub fn new() -> (r: Tracker)
        ensures
            r.wf(),
            r.len() == 0,
            forall|a: Seq<u8>| !r.contains_addr(a),
    {
        Tracker { entries: Vec::new() }
    }

    /// The position of the entry for `a`, if one exists.
    fn find_index(&self, a: &Vec<u8>) -> (r: Option<usize>)
        ensures
            match r {
                Some(i) => i < self.len() && self.addr_at(i as int) == a@,
                None => !self.contains_addr(a@),
            },
    {
        let n = self.entries.len();
        let mut i: usize = 0;
        while i < n
            invariant
                n == self.entries@.len(),
                i <= n,
                forall|k: int| 0 <= k < i ==> self.addr_at(k) != a@,
            decreases n - i,
        {
            if bytes_eq(&self.entries[i].addr, a) {
                return Some(i);
            }
            i = i + 1;
        }
        None
    }

    /// Record that `addr` joined or proved life at `now`. Join and heartbeat
    /// are the same idempotent upsert.
    pub fn upsert(&mut self, addr: &Vec<u8>, now: u64)
        requires
            old(self).wf(),
        ensures
            final(self).wf(),
            upserted(*old(self), *final(self), addr@, now),
    {
        let found = self.find_index(addr);
        match found {
            Some(i) => {
                let ghost pre = *self;
                let e = self.entries.remove(i);
                self.entries.insert(i, TrackEntry { addr: e.addr, last_seen: now });
                proof {
                    assert forall|k: int| 0 <= k < self.len() implies self.addr_at(k)
                        == pre.addr_at(k) by {
                        if k < i {
                            assert(self.entries@[k] == pre.entries@[k]);
                        } else if k > i {
                            assert(self.entries@[k] == pre.entries@[k]);
                        } else {
                            assert(self.entries@[k].addr@ == pre.entries@[k].addr@);
                        }
                    }
                    assert forall|i2: int, j2: int|
                        0 <= i2 < j2 < self.len() implies self.addr_at(i2) != self.addr_at(j2) by {
                        assert(self.addr_at(i2) == pre.addr_at(i2));
                        assert(self.addr_at(j2) == pre.addr_at(j2));
                    }
                    assert(self.wf());
                    self.lemma_index_unique(addr@, i as int);
                    assert forall|a: Seq<u8>| #[trigger]
                        self.contains_addr(a) implies pre.contains_addr(a) || a == addr@ by {
                        let k = choose|k: int| 0 <= k < self.len() && self.addr_at(k) == a;
                        assert(pre.addr_at(k) == a);
                    }
                    assert forall|a: Seq<u8>| pre.contains_addr(a) implies self.contains_addr(
                        a,
                    ) by {
                        let k = choose|k: int| 0 <= k < pre.len() && pre.addr_at(k) == a;
                        assert(self.addr_at(k) == a);
                    }
                    assert forall|a: Seq<u8>|
                        a != addr@ && pre.contains_addr(a) implies self.last_seen_of(a)
                        == pre.last_seen_of(a) by {
                        let k = choose|k: int| 0 <= k < pre.len() && pre.addr_at(k) == a;
                        pre.lemma_index_unique(a, k);
                        self.lemma_index_unique(a, k);
                        assert(k != i);
                    }
                }
            },
            None => {
                let ghost pre = *self;
                self.entries.push(TrackEntry { addr: copy_bytes(addr), last_seen: now });
                proof {
                    let n = pre.len() as int;
                    assert(forall|k: int| 0 <= k < n ==> self.addr_at(k) == pre.addr_at(k));
                    assert(self.addr_at(n) == addr@);
                    assert forall|i: int, j: int|
                        0 <= i < j < self.len() implies self.addr_at(i) != self.addr_at(j) by {
                        if j < n {
                            assert(pre.addr_at(i) != pre.addr_at(j));
                        } else {
                            assert(!pre.contains_addr(addr@));
                            assert(pre.addr_at(i) != addr@);
                        }
                    }
                    self.lemma_index_unique(addr@, n);
                    assert forall|a: Seq<u8>| #[trigger]
                        self.contains_addr(a) implies pre.contains_addr(a) || a == addr@ by {
                        let k = choose|k: int| 0 <= k < self.len() && self.addr_at(k) == a;
                        if k < n {
                            assert(pre.addr_at(k) == a);
                        }
                    }
                    assert forall|a: Seq<u8>| pre.contains_addr(a) implies self.contains_addr(
                        a,
                    ) by {
                        let k = choose|k: int| 0 <= k < pre.len() && pre.addr_at(k) == a;
                        assert(self.addr_at(k) == a);
                    }
                    assert forall|a: Seq<u8>|
                        a != addr@ && pre.contains_addr(a) implies self.last_seen_of(a)
                        == pre.last_seen_of(a) by {
                        let k = choose|k: int| 0 <= k < pre.len() && pre.addr_at(k) == a;
                        pre.lemma_index_unique(a, k);
                        self.lemma_index_unique(a, k);
                    }
                }
            },
        }
    }

    /// A snapshot of the registered endpoints, in registry order.
    pub fn peer_addresses(&self) -> (r: Vec<Vec<u8>>)
        ensures
            views_of(r@).len() == self.len(),
            forall|k: int| 0 <= k < self.len() ==> views_of(r@)[k] == self.addr_at(k),
            forall|a: Seq<u8>| views_of(r@).contains(a) <==> self.contains_addr(a),
    {
        let n = self.entries.len();
        let mut out: Vec<Vec<u8>> = Vec::new();
        let mut i: usize = 0;
        while i < n
            invariant
                n == self.entries@.len(),
                i <= n,
                out@.len() == i,
                forall|k: int| 0 <= k < i ==> views_of(out@)[k] == self.addr_at(k),
            decreases n - i,
        {
            out.push(copy_bytes(&self.entries[i].addr));
            i = i + 1;
        }
        proof {
            assert forall|a: Seq<u8>| views_of(out@).contains(a) implies self.contains_addr(a) by {
                let k = choose|k: int| 0 <= k < views_of(out@).len() && views_of(out@)[k] == a;
                assert(self.addr_at(k) == a);
            }
            assert forall|a: Seq<u8>| self.contains_addr(a) implies views_of(out@).contains(a) by {
                let k = choose|k: int| 0 <= k < self.len() && self.addr_at(k) == a;
                assert(views_of(out@)[k] == a);
            }
        }
        out
    }

    /// Remove exactly the entries that are no longer live at `now`.
    pub fn sweep(&mut self, now: u64)
        requires
            old(self).wf(),
        ensures
            final(self).wf(),
            swept(*old(self), *final(self), now),
    {
        let ghost pre = *self;
        let n = self.entries.len();
        let mut kept: Vec<TrackEntry> = Vec::new();
        // `src[k]` is the position the kept entry `k` came from; `pos_of[j]`
        // is where the entry at `j` went, or a marker if it was dropped.
        let ghost mut src: Seq<int> = Seq::empty();
        let ghost mut pos_of: Seq<int> = Seq::empty();
        let mut i: usize = 0;
        while i < n
            invariant
                pre == *self,
                n == self.entries@.len(),
                i <= n,
                pre.wf(),
                src.len() == kept@.len(),
                pos_of.len() == i,
                forall|k: int| #![trigger src[k]]
                    0 <= k < src.len() ==> 0 <= src[k] < i && kept@[k].addr@ == pre.addr_at(src[k])
                        && kept@[k].last_seen == pre.entries@[src[k]].last_seen && live_at(
                        pre.entries@[src[k]].last_seen,
                        now,
                    ),
                forall|k1: int, k2: int| 0 <= k1 < k2 < src.len() ==> src[k1] < src[k2],
                forall|j: int| #![trigger pos_of[j]]
                    0 <= j < i && live_at(pre.entries@[j].last_seen, now) ==> 0 <= pos_of[j]
                        < kept@.len() && src[pos_of[j]] == j,
            decreases n - i,
        {
            let e = &self.entries[i];
            let live = if now >= e.last_seen {
                now - e.last_seen < EXPIRE_MILLIS
            } else {
                true
            };
            if live {
                proof {
                    pos_of = pos_of.push(kept@.len() as int);
                    src = src.push(i as int);
                }
                kept.push(TrackEntry { addr: copy_bytes(&e.addr), last_seen: e.last_seen });
            } else {
                proof {
                    pos_of = pos_of.push(-1);
                }
            }
            i = i + 1;
        }
        self.entries = kept;
        proof {
            assert forall|i2: int, j2: int|
                0 <= i2 < j2 < self.len() implies self.addr_at(i2) != self.addr_at(j2) by {
                assert(src[i2] < src[j2]);
                assert(pre.addr_at(src[i2]) != pre.addr_at(src[j2]));
            }
            assert forall|a: Seq<u8>| #[trigger]
                self.contains_addr(a) implies pre.contains_addr(a) && live_at(
                pre.last_seen_of(a),
                now,
            ) && self.last_seen_of(a) == pre.last_seen_of(a) by {
                let k = choose|k: int| 0 <= k < self.len() && self.addr_at(k) == a;
                let j = src[k];
                assert(live_at(pre.entries@[j].last_seen, now));
                pre.lemma_index_unique(a, j);
                self.lemma_index_unique(a, k);
            }
            assert forall|a: Seq<u8>|
                pre.contains_addr(a) && live_at(pre.last_seen_of(a), now)
                implies self.contains_addr(a) by {
                let j = choose|j: int| 0 <= j < pre.len() && pre.addr_at(j) == a;
                pre.lemma_index_unique(a, j);
                assert(live_at(pre.entries@[j].last_seen, now));
                let k = pos_of[j];
                assert(self.addr_at(k) == a);
            }
        }
    }

    /// Answer one request at time `now`: joins and heartbeats upsert and get
    /// the acknowledgement, a peer-list request gets the live snapshot, and
    /// anything else gets no reply. The tracker never answers `Bad`.
    pub fn handle_request(&mut self, req: &Request, now: u64) -> (r: Option<Response>)
        requires
            old(self).wf(),
        ensures
            final(self).wf(),
            match req@ {
                ReqModel::Join(a) => upserted(*old(self), *final(self), a, now) && (r matches Some(
                    resp,
                ) && resp@ == RespModel::Okay),
                ReqModel::ActiveProof(a) => upserted(*old(self), *final(self), a, now) && (
                r matches Some(resp) && resp@ == RespModel::Okay),
                ReqModel::PeerList => *final(self) == *old(self) && (r matches Some(resp)
                    && resp@ matches RespModel::PeerList(addrs) && addrs.len() == old(self).len()
                    && (forall|a: Seq<u8>|
                    addrs.contains(a) <==> old(self).contains_addr(a))),
                _ => *final(self) == *old(self) && r is None,
            },
    {
        match req {
            Request::Join { listening_addr } => {
                self.upsert(listening_addr, now);
                Some(Response::Okay)
            },
            Request::ActiveProof { listening_addr } => {
                self.upsert(listening_addr, now);
                Some(Response::Okay)
            },
            Request::PeerList => {
                let addresses = self.peer_addresses();
                Some(Response::PeerList { addresses })
            },
            _ => None,
        }
    }
}

} // verus!

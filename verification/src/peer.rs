//! The peer's state and the decisions of its control loops: the neighbor
//! table, the downloaded-chunk set, neighbor reconciliation, fetch
//! scheduling, fetch completion, and the serving dispatch.
//!
//! Three invariants hold throughout a peer's life: every downloaded chunk
//! identifier is aligned and inside the file; no identifier repeats; and
//! the peer's own address never appears in the neighbor table. The
//! unverified shell owns sockets, threads and sleeps, and hands events in
//! as plain values.

use vstd::prelude::*;
use vstd::seq_lib::group_to_multiset_ensures;

use crate::messages::{ReqModel, Request, RespModel, Response};
use crate::rng::shuffle_values;
use crate::store::{chunk_end, ChunkStore};
use crate::torrent::Torrent;
use crate::util::{bytes_eq, contains_u64, copy_bytes, copy_u64s, views_of};
use crate::{spec_chunk_len, valid_chunk_id, CHUNK_SIZE};

verus! {

/// Appending `c` to a list makes it hold exactly the old elements and `c`.
proof fn lemma_push_contains(s: Seq<u64>, c: u64)
    ensures
        forall|x: u64| s.push(c).contains(x) <==> s.contains(x) || x == c,
{
    assert forall|x: u64| #[trigger] s.push(c).contains(x) implies s.contains(x) || x == c by {
        let k = choose|k: int| 0 <= k < s.push(c).len() && s.push(c)[k] == x;
        if k < s.len() {
            assert(s[k] == x);
        }
    }
    assert forall|x: u64| s.contains(x) implies s.push(c).contains(x) by {
        let k = choose|k: int| 0 <= k < s.len() && s[k] == x;
        assert(s.push(c)[k] == x);
    }
    assert(s.push(c)[s.len() as int] == c);
}

/// One neighbor: its endpoint and the chunk identifiers it last advertised.
struct Neighbor {
    addr: Vec<u8>,
    chunks: Vec<u64>,
}

/// Neighbors name pairwise distinct endpoints.
spec fn nb_distinct(s: Seq<Neighbor>) -> bool {
    forall|i: int, j: int| 0 <= i < j < s.len() ==> s[i].addr@ != s[j].addr@
}

/// Whether some neighbor in `s` has endpoint `a`.
spec fn nb_contains(s: Seq<Neighbor>, a: Seq<u8>) -> bool {
    exists|i: int| 0 <= i < s.len() && s[i].addr@ == a
}

/// The position of the neighbor with endpoint `a`.
spec fn nb_index(s: Seq<Neighbor>, a: Seq<u8>) -> int {
    choose|i: int| 0 <= i < s.len() && s[i].addr@ == a
}

/// With distinct endpoints, any position holding `a` is the position of `a`.
proof fn lemma_nb_index_unique(s: Seq<Neighbor>, a: Seq<u8>, j: int)
    requires
        nb_distinct(s),
        0 <= j < s.len(),
        s[j].addr@ == a,
    ensures
        nb_contains(s, a),
        nb_index(s, a) == j,
{
    assert(nb_contains(s, a));
    let i = nb_index(s, a);
    if i < j {
        assert(s[i].addr@ != s[j].addr@);
    } else if j < i {
        assert(s[j].addr@ != s[i].addr@);
    }
}

/// The position of the neighbor with endpoint `a`, if one exists.
fn find_in(list: &Vec<Neighbor>, a: &Vec<u8>) -> (r: Option<usize>)
    ensures
        match r {
            Some(i) => i < list@.len() && list@[i as int].addr@ == a@,
            None => !nb_contains(list@, a@),
        },
{
    let n = list.len();
    let mut i: usize = 0;
    while i < n
        invariant
            n == list@.len(),
            i <= n,
            forall|k: int| 0 <= k < i ==> list@[k].addr@ != a@,
        decreases n - i,
    {
        if bytes_eq(&list[i].addr, a) {
            return Some(i);
        }
        i = i + 1;
    }
    None
}

/// A peer: its own listening endpoint, the size of the distributed file,
/// its neighbor table, and the set of chunks it already holds.
pub struct Peer {
    self_addr: Vec<u8>,
    file_size: u64,
    neighbors: Vec<Neighbor>,
    downloaded: Vec<u64>,
}

impl Peer {
    /// The endpoint this peer listens on.
    pub closed spec fn self_addr_view(self) -> Seq<u8> {
        self.self_addr@
    }

    /// The size in bytes of the distributed file.
    pub closed spec fn file_size(self) -> u64 {
        self.file_size
    }

    /// How many neighbors the table holds.
    pub closed spec fn neighbor_count(self) -> nat {
        self.neighbors@.len()
    }

    /// The endpoint of the neighbor at `i`.
    pub closed spec fn neighbor_at(self, i: int) -> Seq<u8> {
        self.neighbors@[i].addr@
    }

    /// The chunk identifiers advertised by the neighbor at `i`.
    pub closed spec fn chunks_at(self, i: int) -> Seq<u64> {
        self.neighbors@[i].chunks@
    }

    /// Whether `a` is a neighbor.
    pub closed spec fn contains_neighbor(self, a: Seq<u8>) -> bool {
        nb_contains(self.neighbors@, a)
    }

    /// The chunk identifiers advertised by the neighbor `a`.
    pub closed spec fn chunks_of(self, a: Seq<u8>) -> Seq<u64> {
        self.neighbors@[nb_index(self.neighbors@, a)].chunks@
    }

    /// The chunk identifiers this peer holds, in table order.
    pub closed spec fn downloaded_ids(self) -> Seq<u64> {
        self.downloaded@
    }

    /// Whether this peer holds the chunk starting at `c`.
    pub open spec fn owns_chunk(self, c: u64) -> bool {
        self.downloaded_ids().contains(c)
    }

    /// The peer's standing invariants: neighbors are pairwise distinct and
    /// never include the peer itself; downloaded chunk identifiers are
    /// pairwise distinct, aligned, and inside the file.
    pub closed spec fn wf(self) -> bool {
        &&& nb_distinct(self.neighbors@)
        &&& !nb_contains(self.neighbors@, self.self_addr@)
        &&& self.downloaded@.no_duplicates()
        &&& forall|k: int|
            0 <= k < self.downloaded@.len() ==> valid_chunk_id(
                #[trigger] self.downloaded@[k],
                self.file_size,
            )
    }

    /// Every downloaded chunk identifier is a multiple of the chunk size
    /// that lies inside the file.
    pub proof fn lemma_downloaded_chunks_valid(self)
        requires
            self.wf(),
        ensures
            forall|c: u64| self.owns_chunk(c) ==> valid_chunk_id(c, self.file_size()),
    {
        assert forall|c: u64| self.owns_chunk(c) implies valid_chunk_id(c, self.file_size()) by {
            let k = choose|k: int| 0 <= k < self.downloaded@.len() && self.downloaded@[k] == c;
            assert(valid_chunk_id(self.downloaded@[k], self.file_size));
        }
    }

    /// The downloaded-chunk set holds no duplicates.
    pub proof fn lemma_downloaded_chunks_distinct(self)
        requires
            self.wf(),
        ensures
            self.downloaded_ids().no_duplicates(),
    {
    }

    /// The peer's own address never appears in its neighbor table.
    pub proof fn lemma_self_not_neighbor(self)
        requires
            self.wf(),
        ensures
            !self.contains_neighbor(self.self_addr_view()),
    {
    }

    /// A leecher: it owns nothing yet and knows no neighbors.
    pub fn as_peer(addr: Vec<u8>, torrent: &Torrent) -> (r: Peer)
        ensures
            r.wf(),
            r.self_addr_view() == addr@,
            r.file_size() == torrent.file_size,
            r.neighbor_count() == 0,
            r.downloaded_ids().len() == 0,
    {
        Peer {
            self_addr: addr,
            file_size: torrent.file_size,
            neighbors: Vec::new(),
            downloaded: Vec::new(),
        }
    }

    /// A seeder: it owns every valid chunk of the file from the start.
    pub fn as_seeder(addr: Vec<u8>, torrent: &Torrent) -> (r: Peer)
        ensures
            r.wf(),
            r.self_addr_view() == addr@,
            r.file_size() == torrent.file_size,
            r.neighbor_count() == 0,
            forall|c: u64| r.owns_chunk(c) <==> valid_chunk_id(c, torrent.file_size),
    {
        let fs = torrent.file_size;
        let mut ids: Vec<u64> = Vec::new();
        if fs > 0 {
            let mut id: u64 = 0;
            loop
                invariant_except_break
                    fs == torrent.file_size,
                    0 < fs,
                    id < fs,
                    id == ids@.len() * CHUNK_SIZE,
                    forall|k: int| 0 <= k < ids@.len() ==> ids@[k] == k * CHUNK_SIZE,
                ensures
                    forall|k: int| 0 <= k < ids@.len() ==> ids@[k] == k * CHUNK_SIZE,
                    forall|k: int| 0 <= k < ids@.len() ==> ids@[k] < fs,
                    fs <= ids@.len() * CHUNK_SIZE,
                decreases fs - id,
            {
                ids.push(id);
                proof {
                    assert forall|k: int| 0 <= k < ids@.len() implies ids@[k] < fs by {
                        assert(ids@[k] == k * CHUNK_SIZE);
                        assert(ids@[k] <= id);
                    }
                }
                if fs - id <= CHUNK_SIZE {
                    break ;
                }
                id = id + CHUNK_SIZE;
            }
        }
        proof {
            assert forall|c: u64| ids@.contains(c) implies valid_chunk_id(c, fs) by {
                let k = choose|k: int| 0 <= k < ids@.len() && ids@[k] == c;
                assert(c == k * CHUNK_SIZE);
                assert(c % CHUNK_SIZE == 0) by {
                    vstd::arithmetic::div_mod::lemma_mod_multiples_basic(k, CHUNK_SIZE as int);
                }
            }
            assert forall|c: u64| valid_chunk_id(c, fs) implies ids@.contains(c) by {
                vstd::arithmetic::div_mod::lemma_fundamental_div_mod(c as int, CHUNK_SIZE as int);
                let q = c as int / CHUNK_SIZE as int;
                assert(c == CHUNK_SIZE * q);
                assert(0 <= q);
                assert(q < ids@.len());
                assert(ids@[q] == q * CHUNK_SIZE);
                assert(ids@[q] == c);
            }
            assert forall|k1: int, k2: int|
                0 <= k1 < k2 < ids@.len() implies ids@[k1] != ids@[k2] by {
                assert(ids@[k1] == k1 * CHUNK_SIZE);
                assert(ids@[k2] == k2 * CHUNK_SIZE);
            }
        }
        Peer {
            self_addr: addr,
            file_size: torrent.file_size,
            neighbors: Vec::new(),
            downloaded: ids,
        }
    }

    /// A snapshot of the neighbor endpoints, in table order.
    pub fn neighbor_addresses(&self) -> (r: Vec<Vec<u8>>)
        ensures
            views_of(r@).len() == self.neighbor_count(),
            forall|k: int| 0 <= k < self.neighbor_count() ==> views_of(r@)[k] == self.neighbor_at(k),
            forall|a: Seq<u8>| views_of(r@).contains(a) <==> self.contains_neighbor(a),
    {
        let n = self.neighbors.len();
        let mut out: Vec<Vec<u8>> = Vec::new();
        let mut i: usize = 0;
        while i < n
            invariant
                n == self.neighbors@.len(),
                i <= n,
                out@.len() == i,
                forall|k: int| 0 <= k < i ==> views_of(out@)[k] == self.neighbors@[k].addr@,
            decreases n - i,
        {
            let ghost out0 = out@;
            out.push(copy_bytes(&self.neighbors[i].addr));
            proof {
                assert forall|k: int| 0 <= k < i + 1 implies views_of(out@)[k]
                    == self.neighbors@[k].addr@ by {
                    if k < i {
                        assert(views_of(out0)[k] == self.neighbors@[k].addr@);
                        assert(views_of(out0)[k] == out0[k]@);
                        assert(out@[k] == out0[k]);
                    }
                    assert(views_of(out@)[k] == out@[k]@);
                }
            }
            i = i + 1;
        }
        proof {
            assert forall|a: Seq<u8>| views_of(out@).contains(a) implies self.contains_neighbor(
                a,
            ) by {
                let k = choose|k: int| 0 <= k < views_of(out@).len() && views_of(out@)[k] == a;
                assert(self.neighbors@[k].addr@ == a);
            }
            assert forall|a: Seq<u8>| self.contains_neighbor(a) implies views_of(out@).contains(
                a,
            ) by {
                let k = choose|k: int| 0 <= k < self.neighbors@.len() && self.neighbors@[k].addr@ == a;
                assert(views_of(out@)[k] == a);
            }
        }
        out
    }

    /// A snapshot of the downloaded chunk identifiers, in table order.
    pub fn downloaded_snapshot(&self) -> (r: Vec<u64>)
        ensures
            r@ == self.downloaded_ids(),
    {
        copy_u64s(&self.downloaded)
    }

    /// How many chunks this peer holds.
    pub fn downloaded_count(&self) -> (r: usize)
        ensures
            r == self.downloaded_ids().len(),
    {
        self.downloaded.len()
    }

    /// Reconcile the neighbor table with the peer list the tracker returned:
    /// a neighbor not in the list is dropped; a listed address that is not a
    /// neighbor and is not this peer joins with an empty chunk list; a kept
    /// neighbor keeps its chunk list.
    pub fn reconcile_neighbors(&mut self, peers: &Vec<Vec<u8>>)
        requires
            old(self).wf(),
        ensures
            final(self).wf(),
            final(self).self_addr_view() == old(self).self_addr_view(),
            final(self).file_size() == old(self).file_size(),
            final(self).downloaded_ids() == old(self).downloaded_ids(),
            forall|a: Seq<u8>|
                final(self).contains_neighbor(a) <==> views_of(peers@).contains(a) && a != old(self).self_addr_view(),
            forall|a: Seq<u8>|
                old(self).contains_neighbor(a) && final(self).contains_neighbor(a) ==> final(self).chunks_of(a) == old(self).chunks_of(a),
            forall|a: Seq<u8>|
                !old(self).contains_neighbor(a) && final(self).contains_neighbor(a) ==> final(self).chunks_of(a) == Seq::<u64>::empty(),
    {
        let ghost pre = *self;
        let n = peers.len();
        let mut kept: Vec<Neighbor> = Vec::new();
        let mut t: usize = 0;
        while t < n
            invariant
                pre == *self,
                pre.wf(),
                n == peers@.len(),
                t <= n,
                nb_distinct(kept@),
                forall|a: Seq<u8>| #[trigger]
                    nb_contains(kept@, a) <==> views_of(peers@).take(t as int).contains(a) && a
                        != pre.self_addr@,
                forall|a: Seq<u8>|
                    nb_contains(kept@, a) && nb_contains(pre.neighbors@, a) ==> kept@[nb_index(
                        kept@,
                        a,
                    )].chunks@ == pre.neighbors@[nb_index(pre.neighbors@, a)].chunks@,
                forall|a: Seq<u8>|
                    nb_contains(kept@, a) && !nb_contains(pre.neighbors@, a) ==> kept@[nb_index(
                        kept@,
                        a,
                    )].chunks@ == Seq::<u64>::empty(),
            decreases n - t,
        {
            let ghost kept0 = kept@;
            let p = &peers[t];
            proof {
                assert(views_of(peers@)[t as int] == p@);
                assert(views_of(peers@).take(t as int + 1) =~= views_of(peers@).take(t as int)
                    + seq![p@]);
            }
            let already = find_in(&kept, p);
            if !bytes_eq(p, &self.self_addr) && already.is_none() {
                let chunks = match find_in(&self.neighbors, p) {
                    Some(i) => copy_u64s(&self.neighbors[i].chunks),
                    None => Vec::new(),
                };
                let ghost had = nb_contains(pre.neighbors@, p@);
                proof {
                    if had {
                        let i = nb_index(pre.neighbors@, p@);
                    }
                }
                kept.push(Neighbor { addr: copy_bytes(p), chunks });
                proof {
                    let m = kept0.len() as int;
                    assert(kept@[m].addr@ == p@);
                    assert forall|i: int, j: int|
                        0 <= i < j < kept@.len() implies kept@[i].addr@ != kept@[j].addr@ by {
                        if j == m {
                            assert(!nb_contains(kept0, p@));
                            assert(kept0[i].addr@ != p@);
                        } else {
                            assert(kept0[i].addr@ != kept0[j].addr@);
                        }
                    }
                    lemma_nb_index_unique(kept@, p@, m);
                    if nb_contains(pre.neighbors@, p@) {
                        let i = choose|i: int|
                            0 <= i < pre.neighbors@.len() && pre.neighbors@[i].addr@ == p@;
                        lemma_nb_index_unique(pre.neighbors@, p@, i);
                    }
                    assert forall|a: Seq<u8>| #[trigger]
                        nb_contains(kept@, a) implies views_of(peers@).take(t as int + 1).contains(
                        a,
                    ) && a != pre.self_addr@ by {
                        let k = choose|k: int| 0 <= k < kept@.len() && kept@[k].addr@ == a;
                        if k < m {
                            assert(nb_contains(kept0, a));
                        } else {
                            assert(views_of(peers@).take(t as int + 1)[t as int] == a);
                        }
                    }
                    assert forall|a: Seq<u8>|
                        views_of(peers@).take(t as int + 1).contains(a) && a != pre.self_addr@
                        implies nb_contains(kept@, a) by {
                        if a == p@ {
                            assert(kept@[m].addr@ == a);
                        } else {
                            let k = choose|k: int|
                                0 <= k < t && views_of(peers@).take(t as int)[k] == a;
                            assert(nb_contains(kept0, a));
                            let k2 = choose|k2: int| 0 <= k2 < kept0.len() && kept0[k2].addr@ == a;
                            assert(kept@[k2].addr@ == a);
                        }
                    }
                    assert forall|a: Seq<u8>|
                        nb_contains(kept@, a) && nb_contains(pre.neighbors@, a) implies kept@[nb_index(
                        kept@,
                        a,
                    )].chunks@ == pre.neighbors@[nb_index(pre.neighbors@, a)].chunks@ by {
                        let k = choose|k: int| 0 <= k < kept@.len() && kept@[k].addr@ == a;
                        lemma_nb_index_unique(kept@, a, k);
                        if k < m {
                            assert(nb_contains(kept0, a));
                            lemma_nb_index_unique(kept0, a, k);
                            assert(kept0[k] == kept@[k]);
                        }
                    }
                    assert forall|a: Seq<u8>|
                        nb_contains(kept@, a) && !nb_contains(pre.neighbors@, a) implies kept@[nb_index(
                        kept@,
                        a,
                    )].chunks@ == Seq::<u64>::empty() by {
                        let k = choose|k: int| 0 <= k < kept@.len() && kept@[k].addr@ == a;
                        lemma_nb_index_unique(kept@, a, k);
                        if k < m {
                            assert(nb_contains(kept0, a));
                            lemma_nb_index_unique(kept0, a, k);
                            assert(kept0[k] == kept@[k]);
                        }
                    }
                }
            } else {
                proof {
                    assert forall|a: Seq<u8>|
                        views_of(peers@).take(t as int + 1).contains(a) && a != pre.self_addr@
                        implies nb_contains(kept@, a) by {
                        if a == p@ {
                            if already is Some {
                            } else {
                                assert(p@ == pre.self_addr@);
                            }
                        } else {
                            let k = choose|k: int|
                                0 <= k < t && views_of(peers@).take(t as int)[k] == a;
                            assert(views_of(peers@).take(t as int).contains(a));
                        }
                    }
                    assert forall|a: Seq<u8>| #[trigger]
                        nb_contains(kept@, a) implies views_of(peers@).take(t as int + 1).contains(
                        a,
                    ) && a != pre.self_addr@ by {
                        assert(views_of(peers@).take(t as int).contains(a));
                        let k = choose|k: int|
                            0 <= k < t && views_of(peers@).take(t as int)[k] == a;
                        assert(views_of(peers@).take(t as int + 1)[k] == a);
                    }
                }
            }
            t = t + 1;
        }
        self.neighbors = kept;
        proof {
            assert(views_of(peers@).take(n as int) =~= views_of(peers@));
            assert forall|a: Seq<u8>|
                old(self).contains_neighbor(a) && self.contains_neighbor(a) implies self.chunks_of(
                a,
            ) == old(self).chunks_of(a) by {
            }
        }
    }

    /// Drop the neighbor `addr`, after a connection to it failed.
    pub fn remove_neighbor(&mut self, addr: &Vec<u8>)
        requires
            old(self).wf(),
        ensures
            final(self).wf(),
            final(self).self_addr_view() == old(self).self_addr_view(),
            final(self).file_size() == old(self).file_size(),
            final(self).downloaded_ids() == old(self).downloaded_ids(),
            forall|a: Seq<u8>|
                final(self).contains_neighbor(a) <==> old(self).contains_neighbor(a) && a != addr@,
            forall|a: Seq<u8>|
                a != addr@ && old(self).contains_neighbor(a) ==> final(self).chunks_of(a) == old(self).chunks_of(a),
    {
        let ghost pre = *self;
        let found = find_in(&self.neighbors, addr);
        match found {
            Some(i) => {
                self.neighbors.remove(i);
                proof {
                    assert forall|k1: int, k2: int|
                        0 <= k1 < k2 < self.neighbors@.len() implies self.neighbors@[k1].addr@
                        != self.neighbors@[k2].addr@ by {
                        let m1: int = if k1 < i { k1 } else { k1 + 1 };
                        let m2: int = if k2 < i { k2 } else { k2 + 1 };
                        assert(self.neighbors@[k1] == pre.neighbors@[m1]);
                        assert(self.neighbors@[k2] == pre.neighbors@[m2]);
                    }
                    lemma_nb_index_unique(pre.neighbors@, addr@, i as int);
                    assert forall|a: Seq<u8>| #[trigger]
                        nb_contains(self.neighbors@, a) implies nb_contains(pre.neighbors@, a) && a
                        != addr@ by {
                        let k = choose|k: int|
                            0 <= k < self.neighbors@.len() && self.neighbors@[k].addr@ == a;
                        let m: int = if k < i { k } else { k + 1 };
                        assert(pre.neighbors@[m].addr@ == a);
                        lemma_nb_index_unique(pre.neighbors@, a, m);
                        assert(m != i);
                    }
                    assert forall|a: Seq<u8>|
                        nb_contains(pre.neighbors@, a) && a != addr@ implies nb_contains(
                        self.neighbors@,
                        a,
                    ) by {
                        let m = choose|m: int|
                            0 <= m < pre.neighbors@.len() && pre.neighbors@[m].addr@ == a;
                        lemma_nb_index_unique(pre.neighbors@, a, m);
                        let k: int = if m < i { m } else { m - 1 };
                        assert(self.neighbors@[k].addr@ == a);
                    }
                    assert forall|a: Seq<u8>|
                        a != addr@ && nb_contains(pre.neighbors@, a) implies self.chunks_of(a)
                        == pre.chunks_of(a) by {
                        let m = choose|m: int|
                            0 <= m < pre.neighbors@.len() && pre.neighbors@[m].addr@ == a;
                        lemma_nb_index_unique(pre.neighbors@, a, m);
                        let k: int = if m < i { m } else { m - 1 };
                        assert(self.neighbors@[k] == pre.neighbors@[m]);
                        lemma_nb_index_unique(self.neighbors@, a, k);
                    }
                }
            },
            None => {},
        }
    }

    /// Replace the chunk list the neighbor `addr` advertises. A no-op if the
    /// neighbor was removed in the meantime.
    pub fn set_neighbor_chunks(&mut self, addr: &Vec<u8>, chunks: Vec<u64>)
        requires
            old(self).wf(),
        ensures
            final(self).wf(),
            final(self).self_addr_view() == old(self).self_addr_view(),
            final(self).file_size() == old(self).file_size(),
            final(self).downloaded_ids() == old(self).downloaded_ids(),
            forall|a: Seq<u8>|
                final(self).contains_neighbor(a) <==> old(self).contains_neighbor(a),
            old(self).contains_neighbor(addr@) ==> final(self).chunks_of(addr@) == chunks@,
            !old(self).contains_neighbor(addr@) ==> *final(self) == *old(self),
            forall|a: Seq<u8>|
                a != addr@ && old(self).contains_neighbor(a) ==> final(self).chunks_of(a) == old(self).chunks_of(a),
    {
        let ghost pre = *self;
        let found = find_in(&self.neighbors, addr);
        match found {
            Some(i) => {
                let e = self.neighbors.remove(i);
                self.neighbors.insert(i, Neighbor { addr: e.addr, chunks });
                proof {
                    assert forall|k: int| 0 <= k < self.neighbors@.len() implies self.neighbors@[k].addr@
                        == pre.neighbors@[k].addr@ by {
                        if k != i {
                            assert(self.neighbors@[k] == pre.neighbors@[k]);
                        }
                    }
                    assert forall|k1: int, k2: int|
                        0 <= k1 < k2 < self.neighbors@.len() implies self.neighbors@[k1].addr@
                        != self.neighbors@[k2].addr@ by {
                        assert(pre.neighbors@[k1].addr@ != pre.neighbors@[k2].addr@);
                    }
                    assert forall|a: Seq<u8>| #[trigger]
                        nb_contains(self.neighbors@, a) implies nb_contains(pre.neighbors@, a) by {
                        let k = choose|k: int|
                            0 <= k < self.neighbors@.len() && self.neighbors@[k].addr@ == a;
                        assert(pre.neighbors@[k].addr@ == a);
                    }
                    assert forall|a: Seq<u8>|
                        nb_contains(pre.neighbors@, a) implies nb_contains(self.neighbors@, a) by {
                        let k = choose|k: int|
                            0 <= k < pre.neighbors@.len() && pre.neighbors@[k].addr@ == a;
                        assert(self.neighbors@[k].addr@ == a);
                    }
                    lemma_nb_index_unique(pre.neighbors@, addr@, i as int);
                    lemma_nb_index_unique(self.neighbors@, addr@, i as int);
                    assert forall|a: Seq<u8>|
                        a != addr@ && nb_contains(pre.neighbors@, a) implies self.chunks_of(a)
                        == pre.chunks_of(a) by {
                        let k = choose|k: int|
                            0 <= k < pre.neighbors@.len() && pre.neighbors@[k].addr@ == a;
                        lemma_nb_index_unique(pre.neighbors@, a, k);
                        lemma_nb_index_unique(self.neighbors@, a, k);
                        assert(k != i);
                        assert(self.neighbors@[k] == pre.neighbors@[k]);
                    }
                }
            },
            None => {},
        }
    }

    /// Record that the chunk starting at `chunk_id` is now held. Nothing
    /// changes unless the identifier is valid and new; the result says
    /// whether it was.
    pub fn insert_downloaded(&mut self, chunk_id: u64) -> (fresh: bool)
        requires
            old(self).wf(),
        ensures
            final(self).wf(),
            fresh == (valid_chunk_id(chunk_id, old(self).file_size()) && !old(self).owns_chunk(
                chunk_id,
            )),
            fresh ==> final(self).downloaded_ids() == old(self).downloaded_ids().push(chunk_id),
            !fresh ==> *final(self) == *old(self),
            final(self).self_addr_view() == old(self).self_addr_view(),
            final(self).file_size() == old(self).file_size(),
            forall|c: u64|
                final(self).owns_chunk(c) <==> old(self).owns_chunk(c) || (fresh && c == chunk_id),
    {
        if chunk_id % CHUNK_SIZE == 0 && chunk_id < self.file_size && !contains_u64(
            &self.downloaded,
            chunk_id,
        ) {
            let ghost pre = *self;
            self.downloaded.push(chunk_id);
            proof {
                lemma_push_contains(pre.downloaded@, chunk_id);
            }
            true
        } else {
            false
        }
    }

    /// Record a fetched chunk and write its bytes into the store, unless the
    /// identifier is invalid, the chunk is already held (another worker
    /// raced), or the byte count is wrong; the result says whether the
    /// write happened, and it happens at most once per chunk.
    pub fn complete_fetch(&mut self, store: &mut ChunkStore, chunk_id: u64, bytes: &Vec<u8>) -> (written: bool)
        requires
            old(self).wf(),
            old(store)@.len() == old(self).file_size(),
        ensures
            final(self).wf(),
            final(store)@.len() == old(store)@.len(),
            written == (valid_chunk_id(chunk_id, old(self).file_size()) && !old(self).owns_chunk(
                chunk_id,
            ) && bytes@.len() == spec_chunk_len(chunk_id, old(self).file_size())),
            written ==> final(self).downloaded_ids() == old(self).downloaded_ids().push(chunk_id)
                && (forall|i: int|
                chunk_id <= i < chunk_id + bytes@.len() ==> final(store)@[i] == bytes@[i
                    - chunk_id]) && (forall|i: int|
                0 <= i < old(store)@.len() && !(chunk_id <= i < chunk_id + bytes@.len())
                    ==> final(store)@[i] == old(store)@[i]),
            !written ==> *final(self) == *old(self) && final(store)@ == old(store)@,
            forall|c: u64|
                final(self).owns_chunk(c) <==> old(self).owns_chunk(c) || (written && c
                    == chunk_id),
    {
        let fs = self.file_size;
        if chunk_id % CHUNK_SIZE == 0 && chunk_id < fs && !contains_u64(&self.downloaded, chunk_id)
            && bytes.len() as u64 == crate::chunk_len(chunk_id, fs) {
            let ghost pre = *self;
            self.downloaded.push(chunk_id);
            proof {
                lemma_push_contains(pre.downloaded@, chunk_id);
            }
            store.write_chunk(chunk_id, bytes);
            true
        } else {
            false
        }
    }

    /// The first chunk in `chunks` that this peer does not hold.
    fn first_missing(chunks: &Vec<u64>, downloaded: &Vec<u64>) -> (r: Option<u64>)
        ensures
            match r {
                Some(c) => chunks@.contains(c) && !downloaded@.contains(c),
                None => forall|k: int| 0 <= k < chunks@.len() ==> downloaded@.contains(chunks@[k]),
            },
    {
        let n = chunks.len();
        let mut i: usize = 0;
        while i < n
            invariant
                n == chunks@.len(),
                i <= n,
                forall|k: int| 0 <= k < i ==> downloaded@.contains(chunks@[k]),
            decreases n - i,
        {
            let c = chunks[i];
            if !contains_u64(downloaded, c) {
                proof {
                    assert(chunks@[i as int] == c);
                }
                return Some(c);
            }
            i = i + 1;
        }
        None
    }

    /// Pick a fetch target: scan the neighbors in a uniformly random order
    /// and take the first advertised chunk this peer does not hold. Nothing
    /// comes back only when every advertised chunk is already held.
    pub fn select_fetch_target(&self, rng: &mut rand::rngs::ThreadRng) -> (r: Option<(Vec<u8>, u64)>)
        requires
            self.wf(),
        ensures
            match r {
                Some(target) => self.contains_neighbor(target.0@) && self.chunks_of(
                    target.0@,
                ).contains(target.1) && !self.owns_chunk(target.1),
                None => forall|i: int, k: int|
                    0 <= i < self.neighbor_count() && 0 <= k < self.chunks_at(i).len()
                        ==> self.owns_chunk(#[trigger] self.chunks_at(i)[k]),
            },
    {
        broadcast use group_to_multiset_ensures;

        let n = self.neighbors.len();
        let mut order: Vec<usize> = Vec::new();
        let mut i: usize = 0;
        while i < n
            invariant
                i <= n,
                order@.len() == i,
                forall|k: int| 0 <= k < i ==> order@[k] == k,
            decreases n - i,
        {
            order.push(i);
            i = i + 1;
        }
        let ghost order0 = order@;
        shuffle_values(&mut order, rng);
        proof {
            assert(order@.to_multiset() =~= order0.to_multiset());
            assert(order@.len() == order@.to_multiset().len());
            assert(order0.len() == order0.to_multiset().len());
            assert forall|t: int| 0 <= t < order@.len() implies order@[t] < n by {
                assert(order@.contains(order@[t]));
                assert(order@.to_multiset().count(order@[t]) > 0);
                assert(order0.contains(order@[t]));
            }
            assert forall|j: int| 0 <= j < n implies order@.contains(#[trigger] (j as usize)) by {
                assert(order0[j] == j);
                assert(order0.contains(j as usize));
                assert(order0.to_multiset().count(j as usize) > 0);
            }
            assert(order@.len() == n);
        }
        let mut t: usize = 0;
        while t < order.len()
            invariant
                self.wf(),
                n == self.neighbors@.len(),
                order@.len() == n,
                t <= n,
                forall|k: int| 0 <= k < order@.len() ==> order@[k] < n,
                forall|u: int| #![trigger order@[u]]
                    0 <= u < t ==> forall|k: int|
                        0 <= k < self.neighbors@[order@[u] as int].chunks@.len()
                            ==> self.downloaded@.contains(
                            #[trigger] self.neighbors@[order@[u] as int].chunks@[k],
                        ),
            decreases n - t,
        {
            let idx = order[t];
            let found = Self::first_missing(&self.neighbors[idx].chunks, &self.downloaded);
            match found {
                Some(c) => {
                    let addr = copy_bytes(&self.neighbors[idx].addr);
                    proof {
                        lemma_nb_index_unique(self.neighbors@, addr@, idx as int);
                    }
                    return Some((addr, c));
                },
                None => {},
            }
            t = t + 1;
        }
        proof {
            assert forall|i2: int, k: int|
                0 <= i2 < self.neighbor_count() && 0 <= k < self.chunks_at(i2).len()
                implies self.owns_chunk(#[trigger] self.chunks_at(i2)[k]) by {
                assert(order@.contains(i2 as usize));
                let u = choose|u: int| 0 <= u < order@.len() && order@[u] == i2 as usize;
                assert(self.downloaded@.contains(self.neighbors@[i2].chunks@[k]));
            }
        }
        None
    }

    /// Answer one request from another peer. A chunk query gets the held
    /// identifiers, freshly permuted; a fetch inside the file gets the bytes
    /// at that offset, held or not, as the protocol allows; anything else,
    /// including a fetch past the end of the file, gets no reply.
    pub fn handle_request(
        &mut self,
        store: &ChunkStore,
        rng: &mut rand::rngs::ThreadRng,
        req: &Request,
    ) -> (r: Option<Response>)
        requires
            old(self).wf(),
            store@.len() == old(self).file_size(),
        ensures
            final(self).wf(),
            final(self).self_addr_view() == old(self).self_addr_view(),
            final(self).file_size() == old(self).file_size(),
            forall|c: u64| final(self).owns_chunk(c) <==> old(self).owns_chunk(c),
            forall|a: Seq<u8>|
                final(self).contains_neighbor(a) <==> old(self).contains_neighbor(a),
            match req@ {
                ReqModel::ChunksQuery => r matches Some(resp) && resp@ matches RespModel::ChunksQuery(
                    ids,
                ) && ids.to_multiset() == old(self).downloaded_ids().to_multiset(),
                ReqModel::FetchChunk(c) => {
                    if c <= store@.len() {
                        r matches Some(resp) && resp@ matches RespModel::Chunk(bytes) && bytes
                            == store@.subrange(c as int, chunk_end(c as int, store@.len() as int))
                    } else {
                        r is None
                    }
                },
                _ => r is None,
            },
    {
        broadcast use group_to_multiset_ensures;

        let ghost pre = *self;
        match req {
            Request::ChunksQuery => {
                shuffle_values(&mut self.downloaded, rng);
                proof {
                    pre.downloaded@.lemma_multiset_has_no_duplicates();
                    assert forall|x: u64|
                        self.downloaded@.to_multiset().contains(x) implies self.downloaded@.to_multiset().count(
                        x,
                    ) == 1 by {
                        assert(pre.downloaded@.to_multiset().count(x) > 0);
                    }
                    self.downloaded@.lemma_multiset_has_no_duplicates_conv();
                    assert forall|k: int|
                        0 <= k < self.downloaded@.len() implies valid_chunk_id(
                        #[trigger] self.downloaded@[k],
                        self.file_size,
                    ) by {
                        assert(self.downloaded@.contains(self.downloaded@[k]));
                        assert(self.downloaded@.to_multiset().count(self.downloaded@[k]) > 0);
                        assert(pre.downloaded@.contains(self.downloaded@[k]));
                        let m = choose|m: int|
                            0 <= m < pre.downloaded@.len() && pre.downloaded@[m]
                                == self.downloaded@[k];
                        assert(valid_chunk_id(pre.downloaded@[m], pre.file_size));
                    }
                    assert forall|c: u64| self.owns_chunk(c) <==> pre.owns_chunk(c) by {
                        assert(self.downloaded@.contains(c) <==> self.downloaded@.to_multiset().count(
                            c,
                        ) > 0);
                        assert(pre.downloaded@.contains(c) <==> pre.downloaded@.to_multiset().count(
                            c,
                        ) > 0);
                    }
                }
                let ids = copy_u64s(&self.downloaded);
                Some(Response::ChunksQuery { chunk_ids: ids })
            },
            Request::FetchChunk { chunk_id } => {
                let size = store.size();
                if *chunk_id <= size as u64 {
                    let bytes = store.read_chunk(*chunk_id);
                    Some(Response::Chunk { bytes })
                } else {
                    None
                }
            },
            _ => None,
        }
    }
}

} // verus!

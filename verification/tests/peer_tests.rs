use p2p::chunk_len;
use p2p::messages::{get_chunks_query_request, get_fetch_chunk_request, get_join_request, Response};
use p2p::peer::Peer;
use p2p::rng::fresh_rng;
use p2p::store::ChunkStore;
use p2p::torrent::Torrent;
use p2p::CHUNK_SIZE;

fn addr(s: &str) -> Vec<u8> {
    s.as_bytes().to_vec()
}

#[test]
fn chunk_lengths_at_the_boundaries() {
    // A 300000-byte file has two chunks: a full one and a short final one.
    assert_eq!(chunk_len(0, 300000), 262144);
    assert_eq!(chunk_len(262144, 300000), 37856);
    // A file smaller than one chunk has a single chunk of its whole size.
    assert_eq!(chunk_len(0, 1000), 1000);
    // An exact multiple has only full chunks.
    assert_eq!(chunk_len(262144, 2 * CHUNK_SIZE), 262144);
}

#[test]
fn seeder_owns_every_chunk() {
    let torrent = Torrent::new(300000, addr("127.0.0.1:9000"));
    let seeder = Peer::as_seeder(addr("127.0.0.1:9001"), &torrent);
    assert_eq!(seeder.downloaded_snapshot(), vec![0, 262144]);
}

#[test]
fn tiny_file_has_one_chunk() {
    let torrent = Torrent::new(1000, addr("127.0.0.1:9000"));
    let seeder = Peer::as_seeder(addr("127.0.0.1:9001"), &torrent);
    assert_eq!(seeder.downloaded_snapshot(), vec![0]);
}

#[test]
fn leecher_starts_empty() {
    let torrent = Torrent::new(300000, addr("127.0.0.1:9000"));
    let leecher = Peer::as_peer(addr("127.0.0.1:9002"), &torrent);
    assert_eq!(leecher.downloaded_count(), 0);
    assert!(leecher.neighbor_addresses().is_empty());
}

#[test]
fn reconciliation_excludes_self() {
    let torrent = Torrent::new(300000, addr("127.0.0.1:9000"));
    let mut peer = Peer::as_peer(addr("127.0.0.1:9002"), &torrent);
    let peers = vec![addr("127.0.0.1:9001"), addr("127.0.0.1:9002")];
    peer.reconcile_neighbors(&peers);
    assert_eq!(peer.neighbor_addresses(), vec![addr("127.0.0.1:9001")]);
}

#[test]
fn reconciliation_drops_unlisted_and_keeps_chunks() {
    let torrent = Torrent::new(300000, addr("127.0.0.1:9000"));
    let mut peer = Peer::as_peer(addr("127.0.0.1:9002"), &torrent);
    peer.reconcile_neighbors(&vec![addr("a:1"), addr("b:2")]);
    peer.set_neighbor_chunks(&addr("a:1"), vec![0]);
    peer.reconcile_neighbors(&vec![addr("a:1"), addr("c:3")]);
    let names = peer.neighbor_addresses();
    assert!(names.contains(&addr("a:1")));
    assert!(!names.contains(&addr("b:2")));
    assert!(names.contains(&addr("c:3")));
    // the kept neighbor still advertises its chunk
    let mut rng = fresh_rng();
    let target = peer.select_fetch_target(&mut rng);
    let (who, what) = target.expect("the kept neighbor advertises a missing chunk");
    assert_eq!(who, addr("a:1"));
    assert_eq!(what, 0);
}

#[test]
fn neighbor_drop() {
    let torrent = Torrent::new(300000, addr("127.0.0.1:9000"));
    let mut peer = Peer::as_peer(addr("127.0.0.1:9002"), &torrent);
    peer.reconcile_neighbors(&vec![addr("127.0.0.1:9001")]);
    assert_eq!(peer.neighbor_addresses().len(), 1);
    peer.remove_neighbor(&addr("127.0.0.1:9001"));
    assert!(peer.neighbor_addresses().is_empty());
}

#[test]
fn no_neighbors_means_no_target() {
    let torrent = Torrent::new(300000, addr("127.0.0.1:9000"));
    let peer = Peer::as_peer(addr("127.0.0.1:9002"), &torrent);
    let mut rng = fresh_rng();
    assert!(peer.select_fetch_target(&mut rng).is_none());
}

#[test]
fn nothing_missing_means_no_target() {
    let torrent = Torrent::new(300000, addr("127.0.0.1:9000"));
    let mut peer = Peer::as_seeder(addr("127.0.0.1:9002"), &torrent);
    peer.reconcile_neighbors(&vec![addr("127.0.0.1:9001")]);
    peer.set_neighbor_chunks(&addr("127.0.0.1:9001"), vec![0, 262144]);
    let mut rng = fresh_rng();
    assert!(peer.select_fetch_target(&mut rng).is_none());
}

#[test]
fn duplicate_insert_is_rejected() {
    let torrent = Torrent::new(300000, addr("127.0.0.1:9000"));
    let mut peer = Peer::as_peer(addr("127.0.0.1:9002"), &torrent);
    assert!(peer.insert_downloaded(0));
    assert!(!peer.insert_downloaded(0));
    assert_eq!(peer.downloaded_count(), 1);
}

#[test]
fn invalid_chunk_ids_are_rejected() {
    let torrent = Torrent::new(300000, addr("127.0.0.1:9000"));
    let mut peer = Peer::as_peer(addr("127.0.0.1:9002"), &torrent);
    // misaligned
    assert!(!peer.insert_downloaded(5));
    // past the end of the file
    assert!(!peer.insert_downloaded(2 * CHUNK_SIZE));
    assert_eq!(peer.downloaded_count(), 0);
}

#[test]
fn raced_chunk_is_written_once() {
    // Two workers fetched the same chunk; only the first write lands.
    let torrent = Torrent::new(1000, addr("127.0.0.1:9000"));
    let mut peer = Peer::as_peer(addr("127.0.0.1:9002"), &torrent);
    let mut store = ChunkStore::new(1000);
    let first = vec![7u8; 1000];
    let second = vec![9u8; 1000];
    assert!(peer.complete_fetch(&mut store, 0, &first));
    assert!(!peer.complete_fetch(&mut store, 0, &second));
    assert_eq!(peer.downloaded_snapshot(), vec![0]);
    assert_eq!(store.as_bytes(), &first);
}

#[test]
fn wrong_length_fetch_is_discarded() {
    let torrent = Torrent::new(1000, addr("127.0.0.1:9000"));
    let mut peer = Peer::as_peer(addr("127.0.0.1:9002"), &torrent);
    let mut store = ChunkStore::new(1000);
    assert!(!peer.complete_fetch(&mut store, 0, &vec![7u8; 999]));
    assert_eq!(peer.downloaded_count(), 0);
    assert_eq!(store.as_bytes(), &vec![0u8; 1000]);
}

#[test]
fn chunks_query_reply_permutes_the_held_set() {
    let torrent = Torrent::new(10 * CHUNK_SIZE, addr("127.0.0.1:9000"));
    let mut seeder = Peer::as_seeder(addr("127.0.0.1:9001"), &torrent);
    let store = ChunkStore::new(10 * CHUNK_SIZE);
    let mut rng = fresh_rng();
    let before = seeder.downloaded_snapshot();
    let reply = seeder.handle_request(&store, &mut rng, &get_chunks_query_request());
    match reply {
        Some(Response::ChunksQuery { chunk_ids }) => {
            let mut got = chunk_ids.clone();
            got.sort();
            let mut want = before.clone();
            want.sort();
            assert_eq!(got, want);
        }
        _ => panic!("a chunks query must be answered with chunk identifiers"),
    }
}

#[test]
fn tiny_file_transfer() {
    // A seeder serves a 1000-byte file; the leecher fetches chunk 0,
    // receives exactly 1000 bytes, writes them at offset 0, and then
    // reports downloaded chunk 0.
    let torrent = Torrent::new(1000, addr("127.0.0.1:9000"));
    let contents: Vec<u8> = (0..1000u32).map(|i| (i % 251) as u8).collect();
    let seeder_store = ChunkStore::from_bytes(contents.clone());
    let mut seeder = Peer::as_seeder(addr("127.0.0.1:9001"), &torrent);
    let mut leecher = Peer::as_peer(addr("127.0.0.1:9002"), &torrent);
    let mut leecher_store = ChunkStore::new(1000);
    let mut rng = fresh_rng();

    // the seeder advertises its chunks
    let advert = seeder.handle_request(&seeder_store, &mut rng, &get_chunks_query_request());
    let ids = match advert {
        Some(Response::ChunksQuery { chunk_ids }) => chunk_ids,
        _ => panic!("a chunks query must be answered with chunk identifiers"),
    };
    assert_eq!(ids, vec![0]);
    leecher.reconcile_neighbors(&vec![addr("127.0.0.1:9001")]);
    leecher.set_neighbor_chunks(&addr("127.0.0.1:9001"), ids);

    // the leecher picks the one missing chunk and fetches it
    let (who, what) = leecher
        .select_fetch_target(&mut rng)
        .expect("one chunk is missing");
    assert_eq!(who, addr("127.0.0.1:9001"));
    assert_eq!(what, 0);
    let reply = seeder.handle_request(&seeder_store, &mut rng, &get_fetch_chunk_request(what));
    let bytes = match reply {
        Some(Response::Chunk { bytes }) => bytes,
        _ => panic!("a fetch must be answered with the chunk bytes"),
    };
    assert_eq!(bytes.len(), 1000);
    assert!(leecher.complete_fetch(&mut leecher_store, what, &bytes));
    assert_eq!(leecher.downloaded_snapshot(), vec![0]);
    assert_eq!(leecher_store.as_bytes(), &contents);
}

#[test]
fn two_chunk_transfer_completes_byte_for_byte() {
    // The two-peer scenario at the protocol-engine level: a 300000-byte
    // file, chunks 0 and 262144, fetched until the leecher's store equals
    // the seeder's.
    let torrent = Torrent::new(300000, addr("127.0.0.1:9000"));
    let contents: Vec<u8> = (0..300000u32).map(|i| (i % 241) as u8).collect();
    let seeder_store = ChunkStore::from_bytes(contents.clone());
    let mut seeder = Peer::as_seeder(addr("127.0.0.1:9001"), &torrent);
    let mut leecher = Peer::as_peer(addr("127.0.0.1:9002"), &torrent);
    let mut leecher_store = ChunkStore::new(300000);
    let mut rng = fresh_rng();

    leecher.reconcile_neighbors(&vec![addr("127.0.0.1:9001")]);
    let advert = seeder.handle_request(&seeder_store, &mut rng, &get_chunks_query_request());
    let ids = match advert {
        Some(Response::ChunksQuery { chunk_ids }) => chunk_ids,
        _ => panic!("a chunks query must be answered with chunk identifiers"),
    };
    leecher.set_neighbor_chunks(&addr("127.0.0.1:9001"), ids);

    while leecher.downloaded_count() < 2 {
        let (who, what) = leecher
            .select_fetch_target(&mut rng)
            .expect("a chunk is still missing");
        assert_eq!(who, addr("127.0.0.1:9001"));
        let reply = seeder.handle_request(&seeder_store, &mut rng, &get_fetch_chunk_request(what));
        let bytes = match reply {
            Some(Response::Chunk { bytes }) => bytes,
            _ => panic!("a fetch must be answered with the chunk bytes"),
        };
        assert!(leecher.complete_fetch(&mut leecher_store, what, &bytes));
    }
    assert_eq!(leecher_store.as_bytes(), &contents);
}

#[test]
fn serving_ignores_control_requests() {
    let torrent = Torrent::new(1000, addr("127.0.0.1:9000"));
    let mut peer = Peer::as_peer(addr("127.0.0.1:9002"), &torrent);
    let store = ChunkStore::new(1000);
    let mut rng = fresh_rng();
    let r = peer.handle_request(&store, &mut rng, &get_join_request(addr("x:1")));
    assert!(r.is_none());
    // a fetch past the end of the file gets no reply either
    let r = peer.handle_request(&store, &mut rng, &get_fetch_chunk_request(4096));
    assert!(r.is_none());
}

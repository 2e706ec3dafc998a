use p2p::messages::{
    get_active_proof_request, get_fetch_chunk_request, get_join_request, get_peer_list_request,
    Response,
};
use p2p::tracker::Tracker;

fn addr(s: &str) -> Vec<u8> {
    s.as_bytes().to_vec()
}

fn listed(tracker: &mut Tracker, a: &str) -> bool {
    match tracker.handle_request(&get_peer_list_request(), 0) {
        Some(Response::PeerList { addresses }) => addresses.contains(&addr(a)),
        _ => panic!("peer list request must be answered with a peer list"),
    }
}

#[test]
fn join_is_acknowledged_and_listed() {
    let mut tracker = Tracker::new();
    let r = tracker.handle_request(&get_join_request(addr("127.0.0.1:9001")), 0);
    assert!(matches!(r, Some(Response::Okay)));
    assert!(listed(&mut tracker, "127.0.0.1:9001"));
}

#[test]
fn heartbeat_expiry() {
    // A peer joins and never heartbeats: just before five seconds it is
    // still listed, just after it is gone.
    let mut tracker = Tracker::new();
    tracker.upsert(&addr("127.0.0.1:9003"), 0);
    tracker.sweep(4900);
    assert!(listed(&mut tracker, "127.0.0.1:9003"));
    tracker.sweep(5600);
    assert!(!listed(&mut tracker, "127.0.0.1:9003"));
}

#[test]
fn heartbeat_refreshes_expiry() {
    let mut tracker = Tracker::new();
    tracker.upsert(&addr("127.0.0.1:9004"), 0);
    let r = tracker.handle_request(&get_active_proof_request(addr("127.0.0.1:9004")), 3000);
    assert!(matches!(r, Some(Response::Okay)));
    tracker.sweep(5600);
    assert!(listed(&mut tracker, "127.0.0.1:9004"));
    tracker.sweep(8100);
    assert!(!listed(&mut tracker, "127.0.0.1:9004"));
}

#[test]
fn sweep_removes_exactly_the_expired() {
    let mut tracker = Tracker::new();
    tracker.upsert(&addr("a:1"), 0);
    tracker.upsert(&addr("b:2"), 2000);
    tracker.upsert(&addr("c:3"), 4000);
    tracker.sweep(6500);
    assert!(!listed(&mut tracker, "a:1"));
    assert!(listed(&mut tracker, "b:2"));
    assert!(listed(&mut tracker, "c:3"));
}

#[test]
fn join_is_idempotent() {
    let mut tracker = Tracker::new();
    tracker.upsert(&addr("127.0.0.1:9005"), 0);
    tracker.upsert(&addr("127.0.0.1:9005"), 100);
    match tracker.handle_request(&get_peer_list_request(), 0) {
        Some(Response::PeerList { addresses }) => assert_eq!(addresses.len(), 1),
        _ => panic!("peer list request must be answered with a peer list"),
    }
}

#[test]
fn unrecognized_request_gets_no_reply() {
    let mut tracker = Tracker::new();
    let r = tracker.handle_request(&get_fetch_chunk_request(0), 0);
    assert!(r.is_none());
}

use p2p::codec::{
    decode_request, decode_response, encode_request, encode_response, frame_payload,
    parse_frame_len,
};
use p2p::messages::{
    get_active_proof_request, get_bad_response, get_chunks_query_request,
    get_chunks_query_response, get_fetch_chunk_request, get_fetch_chunk_response,
    get_join_request, get_ok_response, get_peer_list_request, Request, Response,
};

fn addr(s: &str) -> Vec<u8> {
    s.as_bytes().to_vec()
}

#[test]
fn join_round_trip() {
    let req = get_join_request(addr("127.0.0.1:9001"));
    let bytes = encode_request(&req);
    match decode_request(&bytes) {
        Some(Request::Join { listening_addr }) => {
            assert_eq!(listening_addr, addr("127.0.0.1:9001"));
        }
        _ => panic!("wrong decode"),
    }
}

#[test]
fn active_proof_round_trip() {
    let req = get_active_proof_request(addr("10.0.0.2:8000"));
    let bytes = encode_request(&req);
    match decode_request(&bytes) {
        Some(Request::ActiveProof { listening_addr }) => {
            assert_eq!(listening_addr, addr("10.0.0.2:8000"));
        }
        _ => panic!("wrong decode"),
    }
}

#[test]
fn peer_list_request_round_trip() {
    let bytes = encode_request(&get_peer_list_request());
    assert!(matches!(decode_request(&bytes), Some(Request::PeerList)));
}

#[test]
fn chunks_query_request_round_trip() {
    let bytes = encode_request(&get_chunks_query_request());
    assert!(matches!(decode_request(&bytes), Some(Request::ChunksQuery)));
}

#[test]
fn fetch_chunk_round_trip() {
    let bytes = encode_request(&get_fetch_chunk_request(262144));
    match decode_request(&bytes) {
        Some(Request::FetchChunk { chunk_id }) => assert_eq!(chunk_id, 262144),
        _ => panic!("wrong decode"),
    }
}

#[test]
fn ok_and_bad_round_trip() {
    let ok_bytes = encode_response(&get_ok_response());
    assert!(matches!(decode_response(&ok_bytes), Some(Response::Okay)));
    let bad_bytes = encode_response(&get_bad_response());
    assert!(matches!(decode_response(&bad_bytes), Some(Response::Bad)));
}

#[test]
fn peer_list_response_round_trip() {
    let addrs = vec![addr("127.0.0.1:9001"), addr("127.0.0.1:9002"), addr("")];
    let resp = Response::PeerList {
        addresses: addrs.clone(),
    };
    let bytes = encode_response(&resp);
    match decode_response(&bytes) {
        Some(Response::PeerList { addresses }) => assert_eq!(addresses, addrs),
        _ => panic!("wrong decode"),
    }
}

#[test]
fn chunks_query_response_round_trip() {
    let ids = vec![0u64, 262144, 524288];
    let resp = get_chunks_query_response(ids.clone());
    let bytes = encode_response(&resp);
    match decode_response(&bytes) {
        Some(Response::ChunksQuery { chunk_ids }) => assert_eq!(chunk_ids, ids),
        _ => panic!("wrong decode"),
    }
}

#[test]
fn chunk_response_round_trip() {
    let payload = vec![7u8, 0, 255, 3];
    let resp = get_fetch_chunk_response(payload.clone());
    let bytes = encode_response(&resp);
    match decode_response(&bytes) {
        Some(Response::Chunk { bytes }) => assert_eq!(bytes, payload),
        _ => panic!("wrong decode"),
    }
}

#[test]
fn frame_has_big_endian_length_prefix() {
    let payload = vec![1u8, 2, 3];
    let framed = frame_payload(&payload);
    assert_eq!(framed.len(), 11);
    assert_eq!(&framed[..8], &[0, 0, 0, 0, 0, 0, 0, 3]);
    assert_eq!(&framed[8..], &[1, 2, 3]);
    let header = framed[..8].to_vec();
    assert_eq!(parse_frame_len(&header), 3);
}

#[test]
fn frame_length_above_one_byte() {
    let payload = vec![0u8; 300];
    let framed = frame_payload(&payload);
    let header = framed[..8].to_vec();
    assert_eq!(header, vec![0, 0, 0, 0, 0, 0, 1, 44]);
    assert_eq!(parse_frame_len(&header), 300);
}

#[test]
fn malformed_payloads_decode_to_nothing() {
    assert!(decode_request(&vec![]).is_none());
    assert!(decode_response(&vec![]).is_none());
    // unknown tag
    assert!(decode_request(&vec![9]).is_none());
    assert!(decode_response(&vec![9]).is_none());
    // a peer-list or chunks-query request carries no field bytes
    assert!(decode_request(&vec![3, 0]).is_none());
    assert!(decode_request(&vec![4, 1, 2]).is_none());
    // a fetch-chunk request carries exactly eight field bytes
    assert!(decode_request(&vec![5, 1, 2, 3]).is_none());
    // acknowledgements carry no field bytes
    assert!(decode_response(&vec![1, 1]).is_none());
    assert!(decode_response(&vec![2, 0]).is_none());
    // a truncated address list
    assert!(decode_response(&vec![3, 0, 0, 0, 0, 0, 0, 0, 5, 97]).is_none());
    // a chunk-identifier list that is not a multiple of eight bytes
    assert!(decode_response(&vec![4, 0, 0, 0]).is_none());
}

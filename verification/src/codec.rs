//! The wire codec: framing and the structural encoding of messages.
//!
//! Every message travels as an 8-byte big-endian length followed by exactly
//! that many payload bytes. A payload is a tag byte followed by the fields
//! of the tagged variant; lists carry each element behind an 8-byte
//! big-endian length (peer lists) or as fixed 8-byte identifiers (chunk
//! lists). Encoding then decoding any message yields the message back.

use vstd::prelude::*;

use crate::messages::{ReqModel, Request, RespModel, Response};
use crate::util::{copy_range, views_of};

verus! {

/// The 8 bytes of `x`, most significant first.
pub open spec fn u64_be_bytes(x: u64) -> Seq<u8> {
    seq![
        ((x >> 56) & 0xff) as u8,
        ((x >> 48) & 0xff) as u8,
        ((x >> 40) & 0xff) as u8,
        ((x >> 32) & 0xff) as u8,
        ((x >> 24) & 0xff) as u8,
        ((x >> 16) & 0xff) as u8,
        ((x >> 8) & 0xff) as u8,
        (x & 0xff) as u8,
    ]
}

/// The value whose big-endian bytes are `s`.
pub open spec fn u64_from_be(s: Seq<u8>) -> u64
    recommends
        s.len() == 8,
{
    ((s[0] as u64) << 56) | ((s[1] as u64) << 48) | ((s[2] as u64) << 40) | ((s[3] as u64) << 32)
        | ((s[4] as u64) << 24) | ((s[5] as u64) << 16) | ((s[6] as u64) << 8) | (s[7] as u64)
}

/// Reading back the big-endian bytes of a value yields the value.
pub proof fn lemma_u64_be_round_trip(x: u64)
    ensures
        u64_from_be(u64_be_bytes(x)) == x,
{
    assert((((((x >> 56) & 0xff) as u8) as u64) << 56) | (((((x >> 48) & 0xff) as u8) as u64)
        << 48) | (((((x >> 40) & 0xff) as u8) as u64) << 40) | (((((x >> 32) & 0xff) as u8) as u64)
        << 32) | (((((x >> 24) & 0xff) as u8) as u64) << 24) | (((((x >> 16) & 0xff) as u8) as u64)
        << 16) | (((((x >> 8) & 0xff) as u8) as u64) << 8) | (((x & 0xff) as u8) as u64) == x)
        by (bit_vector);
}

/// Append the big-endian bytes of `x`.
pub fn push_u64_be(out: &mut Vec<u8>, x: u64)
    ensures
        final(out)@ == old(out)@ + u64_be_bytes(x),
{
    let ghost orig = out@;
    out.push(((x >> 56) & 0xff) as u8);
    out.push(((x >> 48) & 0xff) as u8);
    out.push(((x >> 40) & 0xff) as u8);
    out.push(((x >> 32) & 0xff) as u8);
    out.push(((x >> 24) & 0xff) as u8);
    out.push(((x >> 16) & 0xff) as u8);
    out.push(((x >> 8) & 0xff) as u8);
    out.push((x & 0xff) as u8);
    proof {
        assert(out@ =~= orig + u64_be_bytes(x));
    }
}

/// Append every byte of `b`.
pub fn push_bytes(out: &mut Vec<u8>, b: &Vec<u8>)
    ensures
        final(out)@ == old(out)@ + b@,
{
    let ghost orig = out@;
    let n = b.len();
    let mut i: usize = 0;
    while i < n
        invariant
            n == b@.len(),
            i <= n,
            out@ == orig + b@.subrange(0, i as int),
        decreases n - i,
    {
        out.push(b[i]);
        proof {
            assert(out@ =~= orig + b@.subrange(0, i + 1));
        }
        i = i + 1;
    }
    proof {
        assert(orig + b@.subrange(0, n as int) =~= orig + b@);
    }
}

/// The value whose big-endian bytes start at `pos`.
pub fn read_u64_be(b: &Vec<u8>, pos: usize) -> (r: u64)
    requires
        pos + 8 <= b@.len(),
    ensures
        r == u64_from_be(b@.subrange(pos as int, pos as int + 8)),
{
    proof {
        assert(b@.len() == b.len());
    }
    let r = ((b[pos] as u64) << 56) | ((b[pos + 1] as u64) << 48) | ((b[pos + 2] as u64) << 40) | (
    (b[pos + 3] as u64) << 32) | ((b[pos + 4] as u64) << 24) | ((b[pos + 5] as u64) << 16) | ((b[pos
        + 6] as u64) << 8) | (b[pos + 7] as u64);
    proof {
        let s = b@.subrange(pos as int, pos as int + 8);
        assert(s[0] == b@[pos as int]);
        assert(s[1] == b@[pos as int + 1]);
        assert(s[2] == b@[pos as int + 2]);
        assert(s[3] == b@[pos as int + 3]);
        assert(s[4] == b@[pos as int + 4]);
        assert(s[5] == b@[pos as int + 5]);
        assert(s[6] == b@[pos as int + 6]);
        assert(s[7] == b@[pos as int + 7]);
    }
    r
}

/// A frame: the payload behind its 8-byte big-endian length.
pub fn frame_payload(payload: &Vec<u8>) -> (r: Vec<u8>)
    ensures
        r@ == u64_be_bytes(payload@.len() as u64) + payload@,
{
    let mut out: Vec<u8> = Vec::new();
    push_u64_be(&mut out, payload.len() as u64);
    push_bytes(&mut out, payload);
    proof {
        assert(out@ =~= u64_be_bytes(payload@.len() as u64) + payload@);
    }
    out
}

/// The payload length announced by an 8-byte frame header.
pub fn parse_frame_len(header: &Vec<u8>) -> (r: u64)
    requires
        header@.len() == 8,
    ensures
        r == u64_from_be(header@),
{
    let r = read_u64_be(header, 0);
    proof {
        assert(header@.subrange(0, 8) =~= header@);
    }
    r
}

/// The encoded bytes of a request.
pub open spec fn spec_encode_request(m: ReqModel) -> Seq<u8> {
    match m {
        ReqModel::Join(a) => seq![1u8] + a,
        ReqModel::ActiveProof(a) => seq![2u8] + a,
        ReqModel::PeerList => seq![3u8],
        ReqModel::ChunksQuery => seq![4u8],
        ReqModel::FetchChunk(c) => seq![5u8] + u64_be_bytes(c),
    }
}

/// The request encoded in `s`, or nothing if `s` is malformed.
pub open spec fn spec_decode_request(s: Seq<u8>) -> Option<ReqModel> {
    if s.len() == 0 {
        None
    } else {
        let tag = s[0];
        let rest = s.subrange(1, s.len() as int);
        if tag == 1 {
            Some(ReqModel::Join(rest))
        } else if tag == 2 {
            Some(ReqModel::ActiveProof(rest))
        } else if tag == 3 {
            if s.len() == 1 {
                Some(ReqModel::PeerList)
            } else {
                None
            }
        } else if tag == 4 {
            if s.len() == 1 {
                Some(ReqModel::ChunksQuery)
            } else {
                None
            }
        } else if tag == 5 {
            if rest.len() == 8 {
                Some(ReqModel::FetchChunk(u64_from_be(rest)))
            } else {
                None
            }
        } else {
            None
        }
    }
}

/// Decoding the encoding of any request yields the request back.
pub proof fn lemma_request_round_trip(m: ReqModel)
    ensures
        spec_decode_request(spec_encode_request(m)) == Some(m),
{
    let s = spec_encode_request(m);
    match m {
        ReqModel::Join(a) => {
            assert(s.subrange(1, s.len() as int) =~= a);
        },
        ReqModel::ActiveProof(a) => {
            assert(s.subrange(1, s.len() as int) =~= a);
        },
        ReqModel::PeerList => {
        },
        ReqModel::ChunksQuery => {
        },
        ReqModel::FetchChunk(c) => {
            assert(s.subrange(1, s.len() as int) =~= u64_be_bytes(c));
            lemma_u64_be_round_trip(c);
        },
    }
}

/// The encoded bytes of a request.
pub fn encode_request(req: &Request) -> (out: Vec<u8>)
    ensures
        out@ == spec_encode_request(req@),
{
    let mut out: Vec<u8> = Vec::new();
    match req {
        Request::Join { listening_addr } => {
            out.push(1);
            push_bytes(&mut out, listening_addr);
            proof {
                assert(out@ =~= seq![1u8] + listening_addr@);
            }
        },
        Request::ActiveProof { listening_addr } => {
            out.push(2);
            push_bytes(&mut out, listening_addr);
            proof {
                assert(out@ =~= seq![2u8] + listening_addr@);
            }
        },
        Request::PeerList => {
            out.push(3);
            proof {
                assert(out@ =~= seq![3u8]);
            }
        },
        Request::ChunksQuery => {
            out.push(4);
            proof {
                assert(out@ =~= seq![4u8]);
            }
        },
        Request::FetchChunk { chunk_id } => {
            out.push(5);
            push_u64_be(&mut out, *chunk_id);
            proof {
                assert(out@ =~= seq![5u8] + u64_be_bytes(*chunk_id));
            }
        },
    }
    out
}

/// The request encoded in `b`, or nothing if `b` is malformed.
pub fn decode_request(b: &Vec<u8>) -> (r: Option<Request>)
    ensures
        match r {
            Some(m) => spec_decode_request(b@) == Some(m@),
            None => spec_decode_request(b@) is None,
        },
{
    if b.len() == 0 {
        return None;
    }
    let tag = b[0];
    if tag == 1 {
        let addr = copy_range(b, 1, b.len());
        Some(Request::Join { listening_addr: addr })
    } else if tag == 2 {
        let addr = copy_range(b, 1, b.len());
        Some(Request::ActiveProof { listening_addr: addr })
    } else if tag == 3 {
        if b.len() == 1 {
            Some(Request::PeerList)
        } else {
            None
        }
    } else if tag == 4 {
        if b.len() == 1 {
            Some(Request::ChunksQuery)
        } else {
            None
        }
    } else if tag == 5 {
        if b.len() == 9 {
            let c = read_u64_be(b, 1);
            Some(Request::FetchChunk { chunk_id: c })
        } else {
            None
        }
    } else {
        None
    }
}

/// The concatenated length-prefixed encodings of a list of addresses.
pub open spec fn spec_encode_addrs(addrs: Seq<Seq<u8>>) -> Seq<u8>
    decreases addrs.len(),
{
    if addrs.len() == 0 {
        Seq::empty()
    } else {
        u64_be_bytes(addrs[0].len() as u64) + addrs[0] + spec_encode_addrs(addrs.drop_first())
    }
}

/// The address list encoded in `s`, or nothing if `s` is malformed.
pub open spec fn spec_decode_addrs(s: Seq<u8>) -> Option<Seq<Seq<u8>>>
    decreases s.len(),
{
    if s.len() == 0 {
        Some(Seq::empty())
    } else if s.len() < 8 {
        None
    } else {
        let n = u64_from_be(s.subrange(0, 8));
        if n > s.len() - 8 {
            None
        } else {
            let item = s.subrange(8, 8 + n as int);
            match spec_decode_addrs(s.subrange(8 + n as int, s.len() as int)) {
                Some(rest) => Some(seq![item] + rest),
                None => None,
            }
        }
    }
}

/// The concatenated fixed-width encodings of a list of chunk identifiers.
pub open spec fn spec_encode_ids(ids: Seq<u64>) -> Seq<u8>
    decreases ids.len(),
{
    if ids.len() == 0 {
        Seq::empty()
    } else {
        u64_be_bytes(ids[0]) + spec_encode_ids(ids.drop_first())
    }
}

/// The chunk-identifier list encoded in `s`, or nothing if `s` is malformed.
pub open spec fn spec_decode_ids(s: Seq<u8>) -> Option<Seq<u64>>
    decreases s.len(),
{
    if s.len() == 0 {
        Some(Seq::empty())
    } else if s.len() < 8 {
        None
    } else {
        let id = u64_from_be(s.subrange(0, 8));
        match spec_decode_ids(s.subrange(8, s.len() as int)) {
            Some(rest) => Some(seq![id] + rest),
            None => None,
        }
    }
}

/// The encoded bytes of a response.
pub open spec fn spec_encode_response(m: RespModel) -> Seq<u8> {
    match m {
        RespModel::Okay => seq![1u8],
        RespModel::Bad => seq![2u8],
        RespModel::PeerList(addrs) => seq![3u8] + spec_encode_addrs(addrs),
        RespModel::ChunksQuery(ids) => seq![4u8] + spec_encode_ids(ids),
        RespModel::Chunk(bytes) => seq![5u8] + bytes,
    }
}

/// The response encoded in `s`, or nothing if `s` is malformed.
pub open spec fn spec_decode_response(s: Seq<u8>) -> Option<RespModel> {
    if s.len() == 0 {
        None
    } else {
        let tag = s[0];
        let rest = s.subrange(1, s.len() as int);
        if tag == 1 {
            if s.len() == 1 {
                Some(RespModel::Okay)
            } else {
                None
            }
        } else if tag == 2 {
            if s.len() == 1 {
                Some(RespModel::Bad)
            } else {
                None
            }
        } else if tag == 3 {
            match spec_decode_addrs(rest) {
                Some(addrs) => Some(RespModel::PeerList(addrs)),
                None => None,
            }
        } else if tag == 4 {
            match spec_decode_ids(rest) {
                Some(ids) => Some(RespModel::ChunksQuery(ids)),
                None => None,
            }
        } else if tag == 5 {
            Some(RespModel::Chunk(rest))
        } else {
            None
        }
    }
}

/// A response is well formed when each address it carries fits behind an
/// 8-byte length. Every list held in a vector does.
pub open spec fn resp_wf(m: RespModel) -> bool {
    match m {
        RespModel::PeerList(addrs) => forall|i: int|
            0 <= i < addrs.len() ==> (#[trigger] addrs[i]).len() <= u64::MAX,
        _ => true,
    }
}

/// Decoding the encoding of any address list yields the list back.
proof fn lemma_addrs_round_trip(addrs: Seq<Seq<u8>>)
    requires
        forall|i: int| 0 <= i < addrs.len() ==> (#[trigger] addrs[i]).len() <= u64::MAX,
    ensures
        spec_decode_addrs(spec_encode_addrs(addrs)) == Some(addrs),
    decreases addrs.len(),
{
    if addrs.len() == 0 {
        assert(addrs =~= Seq::<Seq<u8>>::empty());
    } else {
        let a0 = addrs[0];
        let rest = addrs.drop_first();
        let s = spec_encode_addrs(addrs);
        assert(s == u64_be_bytes(a0.len() as u64) + a0 + spec_encode_addrs(rest));
        assert(s.subrange(0, 8) =~= u64_be_bytes(a0.len() as u64));
        lemma_u64_be_round_trip(a0.len() as u64);
        let n = u64_from_be(s.subrange(0, 8));
        assert(n == a0.len());
        assert(s.subrange(8, 8 + n as int) =~= a0);
        assert(s.subrange(8 + n as int, s.len() as int) =~= spec_encode_addrs(rest));
        lemma_addrs_round_trip(rest);
        assert(seq![a0] + rest =~= addrs);
    }
}

/// Decoding the encoding of any chunk-identifier list yields the list back.
proof fn lemma_ids_round_trip(ids: Seq<u64>)
    ensures
        spec_decode_ids(spec_encode_ids(ids)) == Some(ids),
    decreases ids.len(),
{
    if ids.len() == 0 {
        assert(ids =~= Seq::<u64>::empty());
    } else {
        let rest = ids.drop_first();
        let s = spec_encode_ids(ids);
        assert(s == u64_be_bytes(ids[0]) + spec_encode_ids(rest));
        assert(s.subrange(0, 8) =~= u64_be_bytes(ids[0]));
        lemma_u64_be_round_trip(ids[0]);
        assert(s.subrange(8, s.len() as int) =~= spec_encode_ids(rest));
        lemma_ids_round_trip(rest);
        assert(seq![ids[0]] + rest =~= ids);
    }
}

/// Decoding the encoding of any response yields the response back.
pub proof fn lemma_response_round_trip(m: RespModel)
    requires
        resp_wf(m),
    ensures
        spec_decode_response(spec_encode_response(m)) == Some(m),
{
    let s = spec_encode_response(m);
    match m {
        RespModel::Okay => {
        },
        RespModel::Bad => {
        },
        RespModel::PeerList(addrs) => {
            assert(s.subrange(1, s.len() as int) =~= spec_encode_addrs(addrs));
            lemma_addrs_round_trip(addrs);
        },
        RespModel::ChunksQuery(ids) => {
            assert(s.subrange(1, s.len() as int) =~= spec_encode_ids(ids));
            lemma_ids_round_trip(ids);
        },
        RespModel::Chunk(bytes) => {
            assert(s.subrange(1, s.len() as int) =~= bytes);
        },
    }
}

/// Append the encoding of the addresses from position `i` on.
fn encode_addrs_from(addrs: &Vec<Vec<u8>>, i: usize, out: &mut Vec<u8>)
    requires
        i <= addrs@.len(),
    ensures
        final(out)@ == old(out)@ + spec_encode_addrs(views_of(addrs@).skip(i as int)),
    decreases addrs@.len() - i,
{
    let ghost orig = out@;
    let ghost vs = views_of(addrs@);
    if i == addrs.len() {
        proof {
            assert(vs.skip(i as int) =~= Seq::empty());
            assert(orig + Seq::<u8>::empty() =~= orig);
        }
    } else {
        let a = &addrs[i];
        proof {
            assert(vs[i as int] == a@);
        }
        push_u64_be(out, a.len() as u64);
        push_bytes(out, a);
        encode_addrs_from(addrs, i + 1, out);
        proof {
            let tail = vs.skip(i as int);
            assert(tail.drop_first() =~= vs.skip(i as int + 1));
            assert(tail[0] == a@);
            assert(spec_encode_addrs(tail) == u64_be_bytes(a@.len() as u64) + a@
                + spec_encode_addrs(vs.skip(i as int + 1)));
            assert(out@ =~= orig + spec_encode_addrs(tail));
        }
    }
}

/// Append the encoding of the chunk identifiers from position `i` on.
fn encode_ids_from(ids: &Vec<u64>, i: usize, out: &mut Vec<u8>)
    requires
        i <= ids@.len(),
    ensures
        final(out)@ == old(out)@ + spec_encode_ids(ids@.skip(i as int)),
    decreases ids@.len() - i,
{
    let ghost orig = out@;
    if i == ids.len() {
        proof {
            assert(ids@.skip(i as int) =~= Seq::empty());
            assert(orig + Seq::<u8>::empty() =~= orig);
        }
    } else {
        push_u64_be(out, ids[i]);
        encode_ids_from(ids, i + 1, out);
        proof {
            let tail = ids@.skip(i as int);
            assert(tail.drop_first() =~= ids@.skip(i as int + 1));
            assert(tail[0] == ids@[i as int]);
            assert(spec_encode_ids(tail) == u64_be_bytes(ids@[i as int]) + spec_encode_ids(
                ids@.skip(i as int + 1)));
            assert(out@ =~= orig + spec_encode_ids(tail));
        }
    }
}

/// The encoded bytes of a response.
pub fn encode_response(resp: &Response) -> (out: Vec<u8>)
    ensures
        out@ == spec_encode_response(resp@),
{
    let mut out: Vec<u8> = Vec::new();
    match resp {
        Response::Okay => {
            out.push(1);
            proof {
                assert(out@ =~= seq![1u8]);
            }
        },
        Response::Bad => {
            out.push(2);
            proof {
                assert(out@ =~= seq![2u8]);
            }
        },
        Response::PeerList { addresses } => {
            out.push(3);
            encode_addrs_from(addresses, 0, &mut out);
            proof {
                assert(views_of(addresses@).skip(0) =~= views_of(addresses@));
                assert(out@ =~= seq![3u8] + spec_encode_addrs(views_of(addresses@)));
            }
        },
        Response::ChunksQuery { chunk_ids } => {
            out.push(4);
            encode_ids_from(chunk_ids, 0, &mut out);
            proof {
                assert(chunk_ids@.skip(0) =~= chunk_ids@);
                assert(out@ =~= seq![4u8] + spec_encode_ids(chunk_ids@));
            }
        },
        Response::Chunk { bytes } => {
            out.push(5);
            push_bytes(&mut out, bytes);
            proof {
                assert(out@ =~= seq![5u8] + bytes@);
            }
        },
    }
    out
}

/// The address list encoded from position `pos` on, or nothing if malformed.
fn decode_addrs_from(b: &Vec<u8>, pos: usize) -> (r: Option<Vec<Vec<u8>>>)
    requires
        pos <= b@.len(),
    ensures
        match r {
            Some(v) => spec_decode_addrs(b@.subrange(pos as int, b@.len() as int)) == Some(
                views_of(v@),
            ),
            None => spec_decode_addrs(b@.subrange(pos as int, b@.len() as int)) is None,
        },
    decreases b@.len() - pos,
{
    let ghost s = b@.subrange(pos as int, b@.len() as int);
    if pos == b.len() {
        let r: Vec<Vec<u8>> = Vec::new();
        proof {
            assert(s =~= Seq::<u8>::empty());
            assert(views_of(r@) =~= Seq::<Seq<u8>>::empty());
        }
        Some(r)
    } else if b.len() - pos < 8 {
        None
    } else {
        let n64 = read_u64_be(b, pos);
        proof {
            assert(s.subrange(0, 8) =~= b@.subrange(pos as int, pos as int + 8));
        }
        if n64 > (b.len() - pos - 8) as u64 {
            None
        } else {
            let n = n64 as usize;
            let item = copy_range(b, pos + 8, pos + 8 + n);
            proof {
                assert(s.subrange(8, 8 + n64 as int) =~= b@.subrange(
                    pos as int + 8,
                    pos as int + 8 + n64 as int,
                ));
            }
            match decode_addrs_from(b, pos + 8 + n) {
                Some(mut rest) => {
                    let ghost rest0 = rest@;
                    rest.insert(0, item);
                    proof {
                        assert(s.subrange(8 + n64 as int, s.len() as int) =~= b@.subrange(
                            pos as int + 8 + n64 as int,
                            b@.len() as int,
                        ));
                        assert(views_of(rest@) =~= seq![item@] + views_of(rest0));
                    }
                    Some(rest)
                },
                None => {
                    proof {
                        assert(s.subrange(8 + n64 as int, s.len() as int) =~= b@.subrange(
                            pos as int + 8 + n64 as int,
                            b@.len() as int,
                        ));
                    }
                    None
                },
            }
        }
    }
}

/// The chunk-identifier list encoded from position `pos` on, or nothing if malformed.
fn decode_ids_from(b: &Vec<u8>, pos: usize) -> (r: Option<Vec<u64>>)
    requires
        pos <= b@.len(),
    ensures
        match r {
            Some(v) => spec_decode_ids(b@.subrange(pos as int, b@.len() as int)) == Some(v@),
            None => spec_decode_ids(b@.subrange(pos as int, b@.len() as int)) is None,
        },
    decreases b@.len() - pos,
{
    let ghost s = b@.subrange(pos as int, b@.len() as int);
    if pos == b.len() {
        let r: Vec<u64> = Vec::new();
        proof {
            assert(s =~= Seq::<u8>::empty());
        }
        Some(r)
    } else if b.len() - pos < 8 {
        None
    } else {
        let id = read_u64_be(b, pos);
        proof {
            assert(s.subrange(0, 8) =~= b@.subrange(pos as int, pos as int + 8));
        }
        match decode_ids_from(b, pos + 8) {
            Some(mut rest) => {
                let ghost rest0 = rest@;
                rest.insert(0, id);
                proof {
                    assert(s.subrange(8, s.len() as int) =~= b@.subrange(
                        pos as int + 8,
                        b@.len() as int,
                    ));
                    assert(rest@ =~= seq![id] + rest0);
                }
                Some(rest)
            },
            None => {
                proof {
                    assert(s.subrange(8, s.len() as int) =~= b@.subrange(
                        pos as int + 8,
                        b@.len() as int,
                    ));
                }
                None
            },
        }
    }
}

/// The response encoded in `b`, or nothing if `b` is malformed.
pub fn decode_response(b: &Vec<u8>) -> (r: Option<Response>)
    ensures
        match r {
            Some(m) => spec_decode_response(b@) == Some(m@),
            None => spec_decode_response(b@) is None,
        },
{
    if b.len() == 0 {
        return None;
    }
    let ghost rest = b@.subrange(1, b@.len() as int);
    let tag = b[0];
    if tag == 1 {
        if b.len() == 1 {
            Some(Response::Okay)
        } else {
            None
        }
    } else if tag == 2 {
        if b.len() == 1 {
            Some(Response::Bad)
        } else {
            None
        }
    } else if tag == 3 {
        proof {
            assert(b@.subrange(1, b@.len() as int) =~= rest);
        }
        match decode_addrs_from(b, 1) {
            Some(addrs) => Some(Response::PeerList { addresses: addrs }),
            None => None,
        }
    } else if tag == 4 {
        match decode_ids_from(b, 1) {
            Some(ids) => Some(Response::ChunksQuery { chunk_ids: ids }),
            None => None,
        }
    } else if tag == 5 {
        let bytes = copy_range(b, 1, b.len());
        Some(Response::Chunk { bytes })
    } else {
        None
    }
}

} // verus!

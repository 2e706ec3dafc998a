//! The tagged-union request and response messages of the wire protocol.
//!
//! Endpoint addresses travel as UTF-8 byte strings; the unverified shell
//! around the library converts between them and socket addresses.

use vstd::prelude::*;

use crate::util::views_of;

verus! {

/// A request, sent by a peer to the tracker or to another peer.
pub enum Request {
    /// Announce the endpoint this peer listens on; sent once at startup.
    Join { listening_addr: Vec<u8> },
    /// Periodic liveness heartbeat carrying the same endpoint.
    ActiveProof { listening_addr: Vec<u8> },
    /// Ask the tracker for the currently-live peers.
    PeerList,
    /// Ask a peer which chunks it holds.
    ChunksQuery,
    /// Ask a peer for the bytes of one chunk.
    FetchChunk { chunk_id: u64 },
}

/// The mathematical shape of a request: each byte-string field as a sequence.
pub enum ReqModel {
    Join(Seq<u8>),
    ActiveProof(Seq<u8>),
    PeerList,
    ChunksQuery,
    FetchChunk(u64),
}

impl View for Request {
    type V = ReqModel;

    open spec fn view(&self) -> ReqModel {
        match self {
            Request::Join { listening_addr } => ReqModel::Join(listening_addr@),
            Request::ActiveProof { listening_addr } => ReqModel::ActiveProof(listening_addr@),
            Request::PeerList => ReqModel::PeerList,
            Request::ChunksQuery => ReqModel::ChunksQuery,
            Request::FetchChunk { chunk_id } => ReqModel::FetchChunk(*chunk_id),
        }
    }
}

/// A response, matching the request that the same connection carried.
pub enum Response {
    /// Generic acknowledgement of a join or heartbeat.
    Okay,
    /// Generic refusal; defined by the protocol though the tracker never sends it.
    Bad,
    /// The tracker's snapshot of live peer endpoints.
    PeerList { addresses: Vec<Vec<u8>> },
    /// A peer's currently held chunk identifiers.
    ChunksQuery { chunk_ids: Vec<u64> },
    /// The bytes of one requested chunk.
    Chunk { bytes: Vec<u8> },
}

/// The mathematical shape of a response.
pub enum RespModel {
    Okay,
    Bad,
    PeerList(Seq<Seq<u8>>),
    ChunksQuery(Seq<u64>),
    Chunk(Seq<u8>),
}

impl View for Response {
    type V = RespModel;

    open spec fn view(&self) -> RespModel {
        match self {
            Response::Okay => RespModel::Okay,
            Response::Bad => RespModel::Bad,
            Response::PeerList { addresses } => RespModel::PeerList(views_of(addresses@)),
            Response::ChunksQuery { chunk_ids } => RespModel::ChunksQuery(chunk_ids@),
            Response::Chunk { bytes } => RespModel::Chunk(bytes@),
        }
    }
}

/// A join request announcing `listening_addr`.
pub fn get_join_request(listening_addr: Vec<u8>) -> (r: Request)
    ensures
        r@ == ReqModel::Join(listening_addr@),
{
    Request::Join { listening_addr }
}

/// A heartbeat request announcing `addr`.
pub fn get_active_proof_request(addr: Vec<u8>) -> (r: Request)
    ensures
        r@ == ReqModel::ActiveProof(addr@),
{
    Request::ActiveProof { listening_addr: addr }
}

/// A request for the tracker's list of live peers.
pub fn get_peer_list_request() -> (r: Request)
    ensures
        r@ == ReqModel::PeerList,
{
    Request::PeerList
}

/// A request asking a peer which chunks it holds.
pub fn get_chunks_query_request() -> (r: Request)
    ensures
        r@ == ReqModel::ChunksQuery,
{
    Request::ChunksQuery
}

/// A request for the bytes of the chunk starting at `chunk_id`.
pub fn get_fetch_chunk_request(chunk_id: u64) -> (r: Request)
    ensures
        r@ == ReqModel::FetchChunk(chunk_id),
{
    Request::FetchChunk { chunk_id }
}

/// The generic positive acknowledgement.
pub fn get_ok_response() -> (r: Response)
    ensures
        r@ == RespModel::Okay,
{
    Response::Okay
}

/// The generic negative acknowledgement.
pub fn get_bad_response() -> (r: Response)
    ensures
        r@ == RespModel::Bad,
{
    Response::Bad
}

/// A response carrying the chunk identifiers this peer holds.
pub fn get_chunks_query_response(chunk_ids: Vec<u64>) -> (r: Response)
    ensures
        r@ == RespModel::ChunksQuery(chunk_ids@),
{
    Response::ChunksQuery { chunk_ids }
}

/// A response carrying the bytes of one chunk.
pub fn get_fetch_chunk_response(chunk: Vec<u8>) -> (r: Response)
    ensures
        r@ == RespModel::Chunk(chunk@),
{
    Response::Chunk { bytes: chunk }
}

} // verus!

//! A minimal BitTorrent-style peer-to-peer file distribution library.
//!
//! A central tracker keeps the live membership of a swarm; peers exchange
//! fixed-size chunks of one file directly with each other. This crate holds
//! the verified protocol engine: the wire codec, the message schema, the
//! chunk store, the tracker registry with liveness expiry, and the peer's
//! neighbor table, downloaded-chunk set and fetch scheduling. Sockets,
//! files and threads live outside the library and hand it plain values.

pub mod codec;
pub mod messages;
pub mod peer;
pub mod rng;
pub mod store;
pub mod torrent;
pub mod tracker;
pub mod util;

use vstd::prelude::*;

verus! {

/// Size in bytes of one chunk of the shared file; the unit of transfer.
pub const CHUNK_SIZE: u64 = 262144;

/// A chunk identifier is the byte offset of the chunk's first byte, so a
/// valid identifier is a multiple of the chunk size that lies inside the file.
pub open spec fn valid_chunk_id(chunk_id: u64, file_size: u64) -> bool {
    chunk_id % CHUNK_SIZE == 0 && chunk_id < file_size
}

/// Length in bytes of the chunk starting at `chunk_id`: a full chunk, except
/// that the final chunk stops at the end of the file.
pub open spec fn spec_chunk_len(chunk_id: u64, file_size: u64) -> u64
    recommends
        valid_chunk_id(chunk_id, file_size),
{
    if file_size - chunk_id < CHUNK_SIZE {
        (file_size - chunk_id) as u64
    } else {
        CHUNK_SIZE
    }
}

/// Length in bytes of the chunk starting at `chunk_id`.
pub fn chunk_len(chunk_id: u64, file_size: u64) -> (r: u64)
    requires
        valid_chunk_id(chunk_id, file_size),
    ensures
        r == spec_chunk_len(chunk_id, file_size),
        1 <= r <= CHUNK_SIZE,
{
    let remaining = file_size - chunk_id;
    if remaining < CHUNK_SIZE {
        remaining
    } else {
        CHUNK_SIZE
    }
}

/// When the file size is not a multiple of the chunk size, the final chunk
/// is exactly the leftover `file_size % CHUNK_SIZE` bytes; every other chunk
/// is full.
pub proof fn lemma_last_chunk_len(chunk_id: u64, file_size: u64)
    requires
        valid_chunk_id(chunk_id, file_size),
    ensures
        chunk_id + CHUNK_SIZE >= file_size ==> spec_chunk_len(chunk_id, file_size)
            == if file_size % CHUNK_SIZE == 0 { CHUNK_SIZE as int } else { file_size as int % CHUNK_SIZE as int },
        chunk_id + CHUNK_SIZE < file_size ==> spec_chunk_len(chunk_id, file_size) == CHUNK_SIZE,
{
    if chunk_id + CHUNK_SIZE >= file_size {
        assert(chunk_id == (chunk_id / CHUNK_SIZE) * CHUNK_SIZE) by {
            vstd::arithmetic::div_mod::lemma_fundamental_div_mod(
                chunk_id as int,
                CHUNK_SIZE as int,
            );
        }
        assert(file_size % CHUNK_SIZE == (file_size - chunk_id) % CHUNK_SIZE as int) by {
            vstd::arithmetic::div_mod::lemma_mod_multiples_vanish(
                (chunk_id / CHUNK_SIZE) as int,
                file_size - chunk_id,
                CHUNK_SIZE as int,
            );
        }
        if file_size % CHUNK_SIZE != 0 {
            assert((file_size - chunk_id) % CHUNK_SIZE as int == file_size - chunk_id) by {
                vstd::arithmetic::div_mod::lemma_small_mod(
                    (file_size - chunk_id) as nat,
                    CHUNK_SIZE as nat,
                );
            }
        } else {
            if file_size - chunk_id < CHUNK_SIZE {
                assert((file_size - chunk_id) % CHUNK_SIZE as int == file_size - chunk_id) by {
                    vstd::arithmetic::div_mod::lemma_small_mod(
                        (file_size - chunk_id) as nat,
                        CHUNK_SIZE as nat,
                    );
                }
            }
        }
    }
}

/// A file smaller than one chunk has exactly one chunk: identifier zero,
/// whose length is the whole file.
pub proof fn lemma_tiny_file(file_size: u64)
    requires
        0 < file_size < CHUNK_SIZE,
    ensures
        forall|c: u64| valid_chunk_id(c, file_size) <==> c == 0,
        spec_chunk_len(0, file_size) == file_size,
{
    assert forall|c: u64| valid_chunk_id(c, file_size) implies c == 0 by {
        assert(c % CHUNK_SIZE == c) by {
            vstd::arithmetic::div_mod::lemma_small_mod(c as nat, CHUNK_SIZE as nat);
        }
    }
    assert(0u64 % CHUNK_SIZE == 0) by {
        vstd::arithmetic::div_mod::lemma_small_mod(0nat, CHUNK_SIZE as nat);
    }
}

} // verus!

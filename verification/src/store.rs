//! The chunk store: random-access fixed-size-chunk reads and writes over
//! one backing buffer pre-sized to the file size.
//!
//! Reading at `chunk_id` yields the bytes from that offset up to the end of
//! the chunk or of the file, whichever comes first; writing a chunk changes
//! exactly that span. The unverified shell may mirror the same spans onto a
//! disk file; the offsets and lengths come from here.

use vstd::prelude::*;

use crate::util::copy_range;
use crate::{spec_chunk_len, valid_chunk_id, CHUNK_SIZE};

verus! {

/// The first offset past the chunk starting at `chunk_id` in a file of
/// `file_size` bytes.
pub open spec fn chunk_end(chunk_id: int, file_size: int) -> int {
    if file_size < chunk_id + CHUNK_SIZE {
        file_size
    } else {
        chunk_id + CHUNK_SIZE
    }
}

/// One backing buffer, read by the serving path and written by the fetch
/// path, chunk by chunk.
pub struct ChunkStore {
    data: Vec<u8>,
}

impl View for ChunkStore {
    type V = Seq<u8>;

    closed spec fn view(&self) -> Seq<u8> {
        self.data@
    }
}

impl ChunkStore {
    /// A store of `file_size` zero bytes, the state of a leecher's file
    /// before any chunk arrives.
    pub fn new(file_size: u64) -> (r: ChunkStore)
        requires
            file_size <= usize::MAX,
        ensures
            r@.len() == file_size,
            forall|i: int| 0 <= i < file_size ==> r@[i] == 0,
    {
        let n = file_size as usize;
        let mut data: Vec<u8> = Vec::new();
        let mut i: usize = 0;
        while i < n
            invariant
                i <= n,
                data@.len() == i,
                forall|k: int| 0 <= k < i ==> data@[k] == 0,
            decreases n - i,
        {
            data.push(0);
            i = i + 1;
        }
        ChunkStore { data }
    }

    /// A store holding exactly `data`, the state of a seeder's file.
    pub fn from_bytes(data: Vec<u8>) -> (r: ChunkStore)
        ensures
            r@ == data@,
    {
        ChunkStore { data }
    }

    /// The whole backing buffer.
    pub fn as_bytes(&self) -> (r: &Vec<u8>)
        ensures
            r@ == self@,
    {
        &self.data
    }

    /// How many bytes the store holds: the file size.
    pub fn size(&self) -> (r: usize)
        ensures
            r == self@.len(),
    {
        self.data.len()
    }

    /// The bytes from `chunk_id` to the end of that chunk or of the file.
    /// Any offset inside the file is served, aligned or not: the protocol
    /// does not require the server to check that it holds the chunk.
    pub fn read_chunk(&self, chunk_id: u64) -> (r: Vec<u8>)
        requires
            chunk_id <= self@.len(),
        ensures
            r@ == self@.subrange(chunk_id as int, chunk_end(chunk_id as int, self@.len() as int)),
    {
        let len = self.data.len();
        let start = chunk_id as usize;
        let end = if len - start < CHUNK_SIZE as usize {
            len
        } else {
            start + CHUNK_SIZE as usize
        };
        copy_range(&self.data, start, end)
    }

    /// Write one chunk's bytes at their offset; nothing else changes.
    pub fn write_chunk(&mut self, chunk_id: u64, bytes: &Vec<u8>)
        requires
            valid_chunk_id(chunk_id, old(self)@.len() as u64),
            old(self)@.len() <= u64::MAX,
            bytes@.len() == spec_chunk_len(chunk_id, old(self)@.len() as u64),
        ensures
            final(self)@.len() == old(self)@.len(),
            forall|i: int|
                chunk_id <= i < chunk_id + bytes@.len() ==> final(self)@[i] == bytes@[i - chunk_id],
            forall|i: int|
                0 <= i < old(self)@.len() && !(chunk_id <= i < chunk_id + bytes@.len())
                    ==> final(self)@[i] == old(self)@[i],
    {
        let ghost pre = self.data@;
        let len = self.data.len();
        proof {
            assert(len == self.data@.len());
            assert(chunk_id < len);
        }
        let start = chunk_id as usize;
        let n = bytes.len();
        let mut j: usize = 0;
        while j < n
            invariant
                n == bytes@.len(),
                j <= n,
                start == chunk_id,
                start + n <= self.data@.len(),
                self.data@.len() <= usize::MAX,
                self.data@.len() == pre.len(),
                forall|i: int| start <= i < start + j ==> self.data@[i] == bytes@[i - start],
                forall|i: int|
                    0 <= i < pre.len() && !(start <= i < start + j) ==> self.data@[i] == pre[i],
            decreases n - j,
        {
            self.data[start + j] = bytes[j];
            j = j + 1;
        }
    }
}

/// After a chunk is written, the bytes at its span are exactly the bytes
/// that arrived: what a reader of that chunk will see.
pub proof fn lemma_read_after_write(
    pre: Seq<u8>,
    post: Seq<u8>,
    chunk_id: u64,
    bytes: Seq<u8>,
)
    requires
        valid_chunk_id(chunk_id, pre.len() as u64),
        pre.len() <= u64::MAX,
        pre.len() == post.len(),
        bytes.len() == spec_chunk_len(chunk_id, pre.len() as u64),
        forall|i: int| chunk_id <= i < chunk_id + bytes.len() ==> post[i] == bytes[i - chunk_id],
    ensures
        post.subrange(chunk_id as int, chunk_end(chunk_id as int, post.len() as int)) == bytes,
{
    assert(post.subrange(chunk_id as int, chunk_end(chunk_id as int, post.len() as int))
        =~= bytes);
}

/// A store that holds every chunk of a source byte-for-byte holds the whole
/// source: a leecher that fetched every chunk from a seeder ends with the
/// seeder's file.
pub proof fn lemma_complete_download(have: Seq<u8>, want: Seq<u8>)
    requires
        have.len() == want.len(),
        have.len() <= u64::MAX,
        forall|c: u64|
            #[trigger] valid_chunk_id(c, want.len() as u64) ==> have.subrange(
                c as int,
                chunk_end(c as int, want.len() as int),
            ) == want.subrange(c as int, chunk_end(c as int, want.len() as int)),
    ensures
        have == want,
{
    let fs = want.len() as int;
    assert forall|i: int| 0 <= i < fs implies have[i] == want[i] by {
        let cs = CHUNK_SIZE as int;
        vstd::arithmetic::div_mod::lemma_fundamental_div_mod(i, cs);
        let q = i / cs;
        let c = i - i % cs;
        assert(c == cs * q);
        assert(c % cs == 0) by {
            vstd::arithmetic::div_mod::lemma_mod_multiples_basic(q, cs);
        }
        assert(0 <= i % cs < cs) by {
            vstd::arithmetic::div_mod::lemma_mod_bound(i, cs);
        }
        assert(0 <= c <= i < fs);
        assert(valid_chunk_id(c as u64, want.len() as u64));
        let e = chunk_end(c, fs);
        assert(i < e);
        assert(have.subrange(c, e) == want.subrange(c, e));
        assert(have.subrange(c, e)[i - c] == have[i]);
        assert(want.subrange(c, e)[i - c] == want[i]);
    }
    assert(have =~= want);
}

} // verus!

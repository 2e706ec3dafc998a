use p2p::store::ChunkStore;
use p2p::CHUNK_SIZE;

#[test]
fn new_store_is_zeroed() {
    let store = ChunkStore::new(1000);
    assert_eq!(store.size(), 1000);
    assert_eq!(store.as_bytes(), &vec![0u8; 1000]);
}

#[test]
fn read_after_write_returns_the_written_bytes() {
    let mut store = ChunkStore::new(1000);
    let bytes: Vec<u8> = (0..1000u32).map(|i| (i % 101) as u8).collect();
    store.write_chunk(0, &bytes);
    assert_eq!(store.read_chunk(0), bytes);
}

#[test]
fn short_final_chunk_does_not_overrun() {
    // 300000 bytes: a full chunk and a 37856-byte final chunk.
    let mut store = ChunkStore::new(300000);
    let first = vec![1u8; CHUNK_SIZE as usize];
    let last = vec![2u8; 37856];
    store.write_chunk(CHUNK_SIZE, &last);
    store.write_chunk(0, &first);
    assert_eq!(store.size(), 300000);
    assert_eq!(store.read_chunk(0), first);
    assert_eq!(store.read_chunk(CHUNK_SIZE), last);
}

#[test]
fn writes_to_disjoint_chunks_do_not_disturb_each_other() {
    let mut store = ChunkStore::new(300000);
    let last = vec![9u8; 37856];
    store.write_chunk(CHUNK_SIZE, &last);
    // the first chunk is still untouched
    assert_eq!(store.read_chunk(0), vec![0u8; CHUNK_SIZE as usize]);
}

#[test]
fn any_offset_inside_the_file_is_served() {
    // The serving path does not require the offset to be aligned.
    let contents: Vec<u8> = (0..2000u32).map(|i| (i % 97) as u8).collect();
    let store = ChunkStore::from_bytes(contents.clone());
    assert_eq!(store.read_chunk(500), contents[500..].to_vec());
    assert_eq!(store.read_chunk(2000), Vec::<u8>::new());
}

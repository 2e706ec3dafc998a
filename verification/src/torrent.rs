//! The torrent descriptor: the file size and the tracker endpoint.

use vstd::prelude::*;

verus! {

/// The immutable descriptor a peer starts from. The unverified shell parses
/// the descriptor file and hands the two fields over as plain values.
pub struct Torrent {
    /// Size in bytes of the distributed file.
    pub file_size: u64,
    /// Endpoint of the tracker, as UTF-8 text of the form `ip:port`.
    pub tracker_addr: Vec<u8>,
}

impl Torrent {
    /// A descriptor with the given file size and tracker endpoint.
    pub fn new(file_size: u64, tracker_addr: Vec<u8>) -> (r: Torrent)
        ensures
            r.file_size == file_size,
            r.tracker_addr@ == tracker_addr@,
    {
        Torrent { file_size, tracker_addr }
    }
}

} // verus!

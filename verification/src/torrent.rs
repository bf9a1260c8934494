//! The metainfo of a single-file torrent.

use vstd::prelude::*;

verus! {

/// What a `.torrent` file says of the torrent it describes.
#[derive(Debug, Clone)]
pub struct TorrentFile {
    /// The tracker's announce URL.
    pub announce: String,
    /// The SHA-1 hash of the bencoded info dictionary, as trackers and peers
    /// want it.
    pub info_hash: [u8; 20],
    pub piece_length: i64,
    /// The SHA-1 hash of each piece, cut from the `pieces` string.
    pub pieces: Vec<[u8; 20]>,
    pub name: String,
    /// The total size; single-file torrents only.
    pub length: i64,
}

} // verus!

//! BitTorrent core: bencode values, the peer wire protocol, piece assembly
//! and the metainfo record of a torrent.

pub mod decimal;
pub mod bencode;
pub mod peer;
pub mod piece;
pub mod torrent;

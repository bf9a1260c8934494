# torrent_core

The core of a BitTorrent client, verified with Verus.

- `src/bencode.rs`: bencode values, their encoder and decoder. Dictionaries
  keep their keys sorted and unique. Proved: decoding an encoding gives the
  value back with the rest of the input untouched, every decoded value is
  well formed, decoding then re-encoding canonical input gives the same
  bytes, and a dictionary lookup gives what the last insert or remove left.
- `src/peer.rs`: the peer handshake and the length-prefixed wire messages.
  Proved: decoding the bytes of a handshake or a message gives it back.
- `src/piece.rs`: the 16 KiB blocks of a piece, assembling a piece from its
  blocks, and checking it against its SHA-1 hash (computed by the `sha1`
  crate). Proved: the blocks tile the piece, and assembling the blocks cut
  from a piece gives the piece back.
- `src/decimal.rs`: decimal numerals as `Display` writes them and `FromStr`
  reads them.
- `src/torrent.rs`: the metainfo record of a single-file torrent.
- `app/`: reading and writing handshakes and messages on byte streams.

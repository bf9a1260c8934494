//! The peer wire protocol: the handshake and the length-prefixed messages.

use vstd::prelude::*;

use crate::decimal::{ascii_chars, decimal, numeral_message};

verus! {

pub const PROTOCOL_STR: &'static str = "BitTorrent protocol";

pub const PROTOCOL_LEN: u8 = 19;

/// The bytes of `PROTOCOL_STR`.
pub open spec fn protocol_bytes() -> Seq<u8> {
    seq![66u8, 105, 116, 84, 111, 114, 114, 101, 110, 116, 32, 112, 114, 111, 116, 111, 99, 111, 108]
}

/// `PROTOCOL_STR.as_bytes()`.
fn protocol_str_bytes() -> (b: &'static [u8])
    ensures
        b@ == protocol_bytes(),
{
    broadcast use vstd::string::is_ascii_spec_bytes;
    proof {
        reveal_strlit("BitTorrent protocol");
    }
    assert(vstd::string::is_ascii(PROTOCOL_STR));
    let b = PROTOCOL_STR.as_bytes();
    assert(b@ =~= protocol_bytes());
    b
}

/// The bytes of a handshake: the protocol length, the protocol string, the
/// reserved bytes, the info hash and the peer id.
pub open spec fn handshake_bytes(reserved: Seq<u8>, info_hash: Seq<u8>, peer_id: Seq<u8>) -> Seq<u8> {
    seq![PROTOCOL_LEN] + protocol_bytes() + reserved + info_hash + peer_id
}

/// The length of an encoded handshake.
pub const HANDSHAKE_LEN: usize = 68;

/// Whether `data` begins with a handshake that `Handshake::decode` accepts.
pub open spec fn handshake_ok(data: Seq<u8>) -> bool {
    &&& data.len() >= 68
    &&& data[0] == PROTOCOL_LEN
    &&& data.subrange(1, 20) == protocol_bytes()
}

/// The message with which `Handshake::decode` refuses `data`.
pub open spec fn handshake_error(data: Seq<u8>) -> Seq<char> {
    if data.len() < 1 {
        "handshake too short"@
    } else if data[0] != PROTOCOL_LEN {
        "unexpected protocol length: "@ + ascii_chars(decimal(data[0] as nat)) + ""@
    } else if data.len() < 68 {
        "handshake too short"@
    } else {
        "unexpected protocol string"@
    }
}

/// The handshake that opens a peer connection.
#[derive(Debug, Clone, PartialEq, Eq)]
pub struct Handshake {
    pub info_hash: [u8; 20],
    pub peer_id: [u8; 20],
    pub reserved: [u8; 8],
}

/// Copies `s` into an array.
fn to_array<const N: usize>(s: &[u8]) -> (a: [u8; N])
    requires
        s@.len() == N,
    ensures
        a@ == s@,
{
    let mut a = [0u8; N];
    let mut i: usize = 0;
    while i < N
        invariant
            i <= N,
            s@.len() == N,
            a@.len() == N,
            forall|j: int| 0 <= j < i ==> a@[j] == s@[j],
        decreases N - i,
    {
        a[i] = s[i];
        i = i + 1;
    }
    assert(a@ =~= s@);
    a
}

impl Handshake {
    /// A handshake with all reserved bytes zero.
    pub fn new(info_hash: [u8; 20], peer_id: [u8; 20]) -> (h: Self)
        ensures
            h.info_hash == info_hash,
            h.peer_id == peer_id,
            h.reserved@ == Seq::new(8, |i: int| 0u8),
    {
        let h = Self { info_hash, peer_id, reserved: [0;8] };
        assert(h.reserved@ =~= Seq::new(8, |i: int| 0u8));
        h
    }

    /// The 68 bytes of this handshake.
    pub fn encode(&self) -> (buf: Vec<u8>)
        ensures
            buf@ == handshake_bytes(self.reserved@, self.info_hash@, self.peer_id@),
    {
        let mut buf = Vec::with_capacity(68);
        buf.push(PROTOCOL_LEN);
        buf.extend_from_slice(protocol_str_bytes());
        buf.extend_from_slice(self.reserved.as_slice());
        buf.extend_from_slice(self.info_hash.as_slice());
        buf.extend_from_slice(self.peer_id.as_slice());
        assert(buf@ =~= handshake_bytes(self.reserved@, self.info_hash@, self.peer_id@));
        buf
    }

    /// Checks the protocol length byte that opens a handshake.
    pub fn check_protocol_len(pstrlen: u8) -> (r: Result<(), String>)
        ensures
            r is Ok <==> pstrlen == PROTOCOL_LEN,
            r matches Err(e) ==> e@ == "unexpected protocol length: "@ + ascii_chars(
                decimal(pstrlen as nat),
            ) + ""@,
    {
        if pstrlen != PROTOCOL_LEN {
            Err(numeral_message("unexpected protocol length: ", pstrlen as u64, ""))
        } else {
            Ok(())
        }
    }

    /// Reads the 67 bytes that follow the protocol length byte: the
    /// protocol string, the reserved bytes, the info hash and the peer id.
    pub fn decode_body(body: &[u8]) -> (r: Result<Self, String>)
        requires
            body@.len() >= 67,
        ensures
            r is Ok <==> body@.subrange(0, 19) == protocol_bytes(),
            r matches Ok(h) ==> {
                &&& h.reserved@ == body@.subrange(19, 27)
                &&& h.info_hash@ == body@.subrange(27, 47)
                &&& h.peer_id@ == body@.subrange(47, 67)
            },
            r matches Err(e) ==> e@ == "unexpected protocol string"@,
    {
        let protocol = &body[0..19];
        let expected = protocol_str_bytes();
        let mut i: usize = 0;
        while i < 19
            invariant
                i <= 19,
                protocol@ == body@.subrange(0, 19),
                body@.len() >= 67,
                expected@ == protocol_bytes(),
                forall|j: int| 0 <= j < i ==> protocol@[j] == expected@[j],
            decreases 19 - i,
        {
            if protocol[i] != expected[i] {
                assert(protocol@[i as int] != protocol_bytes()[i as int]);
                assert(protocol@ != protocol_bytes());
                return Err(String::from_str("unexpected protocol string"));
            }
            i = i + 1;
        }
        assert(protocol@ =~= protocol_bytes());
        let reserved = to_array::<8>(&body[19..27]);
        let info_hash = to_array::<20>(&body[27..47]);
        let peer_id = to_array::<20>(&body[47..67]);
        Ok(Handshake { info_hash, peer_id, reserved })
    }

    /// Reads the handshake that `data` begins with; gives it with the bytes
    /// that follow it.
    pub fn decode(data: &[u8]) -> (r: Result<(Self, &[u8]), String>)
        ensures
            r is Ok <==> handshake_ok(data@),
            r matches Ok((h, rest)) ==> {
                &&& h.reserved@ == data@.subrange(20, 28)
                &&& h.info_hash@ == data@.subrange(28, 48)
                &&& h.peer_id@ == data@.subrange(48, 68)
                &&& rest@ == data@.skip(68)
            },
            r matches Err(e) ==> e@ == handshake_error(data@),
    {
        if data.len() < 1 {
            return Err(String::from_str("handshake too short"));
        }
        match Self::check_protocol_len(data[0]) {
            Ok(()) => {},
            Err(e) => return Err(e),
        }
        if data.len() < HANDSHAKE_LEN {
            return Err(String::from_str("handshake too short"));
        }
        let body = &data[1..HANDSHAKE_LEN];
        assert(body@.subrange(0, 19) =~= data@.subrange(1, 20));
        assert(body@.subrange(19, 27) =~= data@.subrange(20, 28));
        assert(body@.subrange(27, 47) =~= data@.subrange(28, 48));
        assert(body@.subrange(47, 67) =~= data@.subrange(48, 68));
        match Self::decode_body(body) {
            Ok(h) => Ok((h, &data[HANDSHAKE_LEN..data.len()])),
            Err(e) => Err(e),
        }
    }
}

/// A handshake read back from its encoding is the handshake that was
/// written, and whatever followed it is left as it was.
pub proof fn lemma_handshake_roundtrip(
    reserved: Seq<u8>,
    info_hash: Seq<u8>,
    peer_id: Seq<u8>,
    rest: Seq<u8>,
)
    requires
        reserved.len() == 8,
        info_hash.len() == 20,
        peer_id.len() == 20,
    ensures
        ({
            let data = handshake_bytes(reserved, info_hash, peer_id) + rest;
            &&& handshake_ok(data)
            &&& data.subrange(20, 28) == reserved
            &&& data.subrange(28, 48) == info_hash
            &&& data.subrange(48, 68) == peer_id
            &&& data.skip(68) == rest
        }),
{
    let data = handshake_bytes(reserved, info_hash, peer_id) + rest;
    assert(data.subrange(1, 20) =~= protocol_bytes());
    assert(data.subrange(20, 28) =~= reserved);
    assert(data.subrange(28, 48) =~= info_hash);
    assert(data.subrange(48, 68) =~= peer_id);
    assert(data.skip(68) =~= rest);
}

/// A 32-bit number in network byte order.
pub open spec fn be32(x: u32) -> Seq<u8> {
    seq![(x >> 24u32) as u8, (x >> 16u32) as u8, (x >> 8u32) as u8, x as u8]
}

/// A 16-bit number in network byte order.
pub open spec fn be16(x: u16) -> Seq<u8> {
    seq![(x >> 8u16) as u8, x as u8]
}

/// The 32-bit number that four bytes give in network byte order.
pub open spec fn be32_value(s: Seq<u8>) -> u32 {
    (s[0] as u32) << 24u32 | (s[1] as u32) << 16u32 | (s[2] as u32) << 8u32 | (s[3] as u32)
}

/// The 16-bit number that two bytes give in network byte order.
pub open spec fn be16_value(s: Seq<u8>) -> u16 {
    (s[0] as u16) << 8u16 | (s[1] as u16)
}

pub proof fn lemma_be32(x: u32)
    ensures
        be32_value(be32(x)) == x,
{
    let s = be32(x);
    assert(s[0] == (x >> 24u32) as u8 && s[1] == (x >> 16u32) as u8 && s[2] == (x >> 8u32) as u8
        && s[3] == x as u8);
    assert((((x >> 24u32) as u8) as u32) << 24u32 | (((x >> 16u32) as u8) as u32) << 16u32 | (((x
        >> 8u32) as u8) as u32) << 8u32 | ((x as u8) as u32) == x) by (bit_vector);
}

pub proof fn lemma_be16(x: u16)
    ensures
        be16_value(be16(x)) == x,
{
    let s = be16(x);
    assert(s[0] == (x >> 8u16) as u8 && s[1] == x as u8);
    assert((((x >> 8u16) as u8) as u16) << 8u16 | ((x as u8) as u16) == x) by (bit_vector);
}

/// Appends `x` in network byte order.
fn push_be32(buf: &mut Vec<u8>, x: u32)
    ensures
        final(buf)@ == old(buf)@ + be32(x),
{
    buf.push((x >> 24) as u8);
    buf.push((x >> 16) as u8);
    buf.push((x >> 8) as u8);
    buf.push(x as u8);
    assert(final(buf)@ =~= old(buf)@ + be32(x));
}

/// Appends `x` in network byte order.
fn push_be16(buf: &mut Vec<u8>, x: u16)
    ensures
        final(buf)@ == old(buf)@ + be16(x),
{
    buf.push((x >> 8) as u8);
    buf.push(x as u8);
    assert(final(buf)@ =~= old(buf)@ + be16(x));
}

/// The 32-bit number at `s[i..i + 4]` in network byte order.
fn read_be32(s: &[u8], i: usize) -> (x: u32)
    requires
        i + 4 <= s@.len(),
    ensures
        x == be32_value(s@.subrange(i as int, i + 4)),
{
    let x = (s[i] as u32) << 24 | (s[i + 1] as u32) << 16 | (s[i + 2] as u32) << 8 | (s[i
        + 3] as u32);
    let ghost t = s@.subrange(i as int, i + 4);
    assert(t[0] == s@[i as int] && t[1] == s@[i + 1] && t[2] == s@[i + 2] && t[3] == s@[i + 3]);
    x
}

/// The 16-bit number at `s[i..i + 2]` in network byte order.
fn read_be16(s: &[u8], i: usize) -> (x: u16)
    requires
        i + 2 <= s@.len(),
    ensures
        x == be16_value(s@.subrange(i as int, i + 2)),
{
    let x = (s[i] as u16) << 8 | (s[i + 1] as u16);
    let ghost t = s@.subrange(i as int, i + 2);
    assert(t[0] == s@[i as int] && t[1] == s@[i + 1]);
    x
}

/// A peer wire message as data: the model of `Message`.
pub enum Msg {
    KeepAlive,
    Choke,
    Unchoke,
    Interested,
    NotInterested,
    Have(u32),
    Bitfield(Seq<u8>),
    Request { index: u32, begin: u32, length: u32 },
    Piece { index: u32, begin: u32, block: Seq<u8> },
    Cancel { index: u32, begin: u32, length: u32 },
    Port(u16),
}

/// A peer wire message.
#[derive(Debug, Clone, PartialEq, Eq)]
pub enum Message {
    KeepAlive,
    Choke,
    Unchoke,
    Interested,
    NotInterested,
    Have(u32),
    Bitfield(Vec<u8>),
    Request { index: u32, begin: u32, length: u32 },
    Piece { index: u32, begin: u32, block: Vec<u8> },
    Cancel { index: u32, begin: u32, length: u32 },
    Port(u16),
}

impl Message {
    /// The message as data.
    pub open spec fn model(self) -> Msg {
        match self {
            Message::KeepAlive => Msg::KeepAlive,
            Message::Choke => Msg::Choke,
            Message::Unchoke => Msg::Unchoke,
            Message::Interested => Msg::Interested,
            Message::NotInterested => Msg::NotInterested,
            Message::Have(i) => Msg::Have(i),
            Message::Bitfield(bits) => Msg::Bitfield(bits@),
            Message::Request { index, begin, length } => Msg::Request { index, begin, length },
            Message::Piece { index, begin, block } => Msg::Piece { index, begin, block: block@ },
            Message::Cancel { index, begin, length } => Msg::Cancel { index, begin, length },
            Message::Port(p) => Msg::Port(p),
        }
    }
}

/// Whether the length prefix of `m` fits in 32 bits.
pub open spec fn framable(m: Msg) -> bool {
    match m {
        Msg::Bitfield(bits) => 1 + bits.len() <= u32::MAX,
        Msg::Piece { block, .. } => 9 + block.len() <= u32::MAX,
        _ => true,
    }
}

/// The bytes of a message: the length of what follows, as a 32-bit number
/// in network byte order, then the message id and the payload.
pub open spec fn message_bytes(m: Msg) -> Seq<u8> {
    match m {
        Msg::KeepAlive => be32(0),
        Msg::Choke => be32(1) + seq![0u8],
        Msg::Unchoke => be32(1) + seq![1u8],
        Msg::Interested => be32(1) + seq![2u8],
        Msg::NotInterested => be32(1) + seq![3u8],
        Msg::Have(i) => be32(5) + seq![4u8] + be32(i),
        Msg::Bitfield(bits) => be32((1 + bits.len()) as u32) + seq![5u8] + bits,
        Msg::Request { index, begin, length } => be32(13) + seq![6u8] + be32(index) + be32(begin)
            + be32(length),
        Msg::Piece { index, begin, block } => be32((9 + block.len()) as u32) + seq![7u8] + be32(
            index,
        ) + be32(begin) + block,
        Msg::Cancel { index, begin, length } => be32(13) + seq![8u8] + be32(index) + be32(begin)
            + be32(length),
        Msg::Port(port) => be32(3) + seq![9u8] + be16(port),
    }
}

/// The outcome of reading a message: the message and the bytes after it, or
/// a message text.
pub type MsgDecoded = Result<(Msg, Seq<u8>), Seq<char>>;

/// What `Message::decode` gives for `data`.
pub open spec fn decode_message_spec(data: Seq<u8>) -> MsgDecoded {
    if data.len() < 4 {
        Err("message too short"@)
    } else {
        let len = be32_value(data.take(4)) as int;
        if data.len() < 4 + len {
            Err("message length mismatch"@)
        } else if len == 0 {
            Ok((Msg::KeepAlive, data.skip(4)))
        } else {
            let rest = data.skip(4 + len);
            let payload = data.subrange(5, 4 + len);
            let id = data[4];
            if id == 0 {
                Ok((Msg::Choke, rest))
            } else if id == 1 {
                Ok((Msg::Unchoke, rest))
            } else if id == 2 {
                Ok((Msg::Interested, rest))
            } else if id == 3 {
                Ok((Msg::NotInterested, rest))
            } else if id == 4 {
                if payload.len() != 4 {
                    Err("have payload wrong size"@)
                } else {
                    Ok((Msg::Have(be32_value(payload)), rest))
                }
            } else if id == 5 {
                Ok((Msg::Bitfield(payload), rest))
            } else if id == 6 {
                if payload.len() != 12 {
                    Err("request payload wrong size"@)
                } else {
                    Ok(
                        (
                            Msg::Request {
                                index: be32_value(payload.subrange(0, 4)),
                                begin: be32_value(payload.subrange(4, 8)),
                                length: be32_value(payload.subrange(8, 12)),
                            },
                            rest,
                        ),
                    )
                }
            } else if id == 7 {
                if payload.len() < 8 {
                    Err("piece payload too short"@)
                } else {
                    Ok(
                        (
                            Msg::Piece {
                                index: be32_value(payload.subrange(0, 4)),
                                begin: be32_value(payload.subrange(4, 8)),
                                block: payload.skip(8),
                            },
                            rest,
                        ),
                    )
                }
            } else if id == 8 {
                if payload.len() != 12 {
                    Err("cancel payload wrong size"@)
                } else {
                    Ok(
                        (
                            Msg::Cancel {
                                index: be32_value(payload.subrange(0, 4)),
                                begin: be32_value(payload.subrange(4, 8)),
                                length: be32_value(payload.subrange(8, 12)),
                            },
                            rest,
                        ),
                    )
                }
            } else if id == 9 {
                if payload.len() != 2 {
                    Err("port payload wrong size"@)
                } else {
                    Ok((Msg::Port(be16_value(payload)), rest))
                }
            } else {
                Err("unknown message id: "@ + ascii_chars(decimal(id as nat)) + ""@)
            }
        }
    }
}

/// The exec outcome `r` of reading a message is the outcome `d` of the spec.
pub open spec fn message_decoded_as(r: Result<(Message, &[u8]), String>, d: MsgDecoded) -> bool {
    match r {
        Ok((m, rest)) => d == Ok::<(Msg, Seq<u8>), Seq<char>>((m.model(), rest@)),
        Err(e) => d == Err::<(Msg, Seq<u8>), Seq<char>>(e@),
    }
}

impl Message {
    /// The bytes of this message.
    pub fn encode(&self) -> (buf: Vec<u8>)
        requires
            framable(self.model()),
        ensures
            buf@ == message_bytes(self.model()),
    {
        let mut buf: Vec<u8> = Vec::new();
        match self {
            Message::KeepAlive => {
                push_be32(&mut buf, 0);
            },
            Message::Choke => {
                push_be32(&mut buf, 1);
                buf.push(0);
            },
            Message::Unchoke => {
                push_be32(&mut buf, 1);
                buf.push(1);
            },
            Message::Interested => {
                push_be32(&mut buf, 1);
                buf.push(2);
            },
            Message::NotInterested => {
                push_be32(&mut buf, 1);
                buf.push(3);
            },
            Message::Have(piece_index) => {
                push_be32(&mut buf, 5);
                buf.push(4);
                push_be32(&mut buf, *piece_index);
            },
            Message::Bitfield(bits) => {
                let len = 1 + bits.len() as u32;
                push_be32(&mut buf, len);
                buf.push(5);
                buf.extend_from_slice(bits.as_slice());
            },
            Message::Request { index, begin, length } => {
                push_be32(&mut buf, 13);
                buf.push(6);
                push_be32(&mut buf, *index);
                push_be32(&mut buf, *begin);
                push_be32(&mut buf, *length);
            },
            Message::Piece { index, begin, block } => {
                let len = 9 + block.len() as u32;
                push_be32(&mut buf, len);
                buf.push(7);
                push_be32(&mut buf, *index);
                push_be32(&mut buf, *begin);
                buf.extend_from_slice(block.as_slice());
            },
            Message::Cancel { index, begin, length } => {
                push_be32(&mut buf, 13);
                buf.push(8);
                push_be32(&mut buf, *index);
                push_be32(&mut buf, *begin);
                push_be32(&mut buf, *length);
            },
            Message::Port(port) => {
                push_be32(&mut buf, 3);
                buf.push(9);
                push_be16(&mut buf, *port);
            },
        }
        assert(buf@ =~= message_bytes(self.model()));
        buf
    }

    /// Whether the length prefix of this message fits in 32 bits, as
    /// `encode` needs.
    pub fn fits_frame(&self) -> (b: bool)
        ensures
            b == framable(self.model()),
    {
        match self {
            Message::Bitfield(bits) => bits.len() < 4294967295,
            Message::Piece { block, .. } => block.len() <= 4294967286,
            _ => true,
        }
    }

    /// The length that a 4-byte message prefix announces.
    pub fn frame_length(prefix: &[u8]) -> (n: u32)
        requires
            prefix@.len() >= 4,
        ensures
            n == be32_value(prefix@.take(4)),
    {
        let n = read_be32(prefix, 0);
        assert(prefix@.subrange(0, 4) =~= prefix@.take(4));
        n
    }

    /// Reads the message that `data` begins with; gives it with the bytes
    /// that follow it.
    pub fn decode(data: &[u8]) -> (r: Result<(Self, &[u8]), String>)
        ensures
            message_decoded_as(r, decode_message_spec(data@)),
    {
        if data.len() < 4 {
            return Err(String::from_str("message too short"));
        }
        let len = Self::frame_length(data) as usize;
        if data.len() - 4 < len {
            return Err(String::from_str("message length mismatch"));
        }
        if len == 0 {
            return Ok((Message::KeepAlive, &data[4..data.len()]));
        }
        let end = 4 + len;
        let id = data[4];
        let payload = &data[5..end];
        let rest = &data[end..data.len()];
        let msg = if id == 0 {
            Message::Choke
        } else if id == 1 {
            Message::Unchoke
        } else if id == 2 {
            Message::Interested
        } else if id == 3 {
            Message::NotInterested
        } else if id == 4 {
            if payload.len() != 4 {
                return Err(String::from_str("have payload wrong size"));
            }
            assert(payload@.subrange(0, 4) =~= payload@);
            Message::Have(read_be32(payload, 0))
        } else if id == 5 {
            Message::Bitfield(vstd::slice::slice_to_vec(payload))
        } else if id == 6 {
            if payload.len() != 12 {
                return Err(String::from_str("request payload wrong size"));
            }
            Message::Request {
                index: read_be32(payload, 0),
                begin: read_be32(payload, 4),
                length: read_be32(payload, 8),
            }
        } else if id == 7 {
            if payload.len() < 8 {
                return Err(String::from_str("piece payload too short"));
            }
            let block = vstd::slice::slice_to_vec(&payload[8..payload.len()]);
            assert(payload@.subrange(8, payload@.len() as int) =~= payload@.skip(8));
            Message::Piece { index: read_be32(payload, 0), begin: read_be32(payload, 4), block }
        } else if id == 8 {
            if payload.len() != 12 {
                return Err(String::from_str("cancel payload wrong size"));
            }
            Message::Cancel {
                index: read_be32(payload, 0),
                begin: read_be32(payload, 4),
                length: read_be32(payload, 8),
            }
        } else if id == 9 {
            if payload.len() != 2 {
                return Err(String::from_str("port payload wrong size"));
            }
            assert(payload@.subrange(0, 2) =~= payload@);
            Message::Port(read_be16(payload, 0))
        } else {
            return Err(numeral_message("unknown message id: ", id as u64, ""));
        };
        Ok((msg, rest))
    }
}

/// A message read back from its bytes is the message that was written, and
/// whatever followed it is left as it was.
pub proof fn lemma_message_roundtrip(m: Msg, rest: Seq<u8>)
    requires
        framable(m),
    ensures
        decode_message_spec(message_bytes(m) + rest) == Ok::<(Msg, Seq<u8>), Seq<char>>((m, rest)),
{
    let bytes = message_bytes(m);
    let data = bytes + rest;
    let len: u32 = (bytes.len() - 4) as u32;
    assert(data.take(4) =~= bytes.take(4));
    assert(bytes.take(4) =~= be32(len));
    lemma_be32(len);
    assert(data.skip(bytes.len() as int) =~= rest);
    match m {
        Msg::KeepAlive => {},
        Msg::Have(i) => {
            assert(data.subrange(5, 9) =~= be32(i));
            lemma_be32(i);
        },
        Msg::Bitfield(bits) => {
            assert(data.subrange(5, 4 + len) =~= bits);
        },
        Msg::Request { index, begin, length } | Msg::Cancel { index, begin, length } => {
            let payload = data.subrange(5, 4 + len);
            assert(payload.subrange(0, 4) =~= be32(index));
            assert(payload.subrange(4, 8) =~= be32(begin));
            assert(payload.subrange(8, 12) =~= be32(length));
            lemma_be32(index);
            lemma_be32(begin);
            lemma_be32(length);
        },
        Msg::Piece { index, begin, block } => {
            let payload = data.subrange(5, 4 + len);
            assert(payload.subrange(0, 4) =~= be32(index));
            assert(payload.subrange(4, 8) =~= be32(begin));
            assert(payload.skip(8) =~= block);
            lemma_be32(index);
            lemma_be32(begin);
        },
        Msg::Port(p) => {
            assert(data.subrange(5, 7) =~= be16(p));
            lemma_be16(p);
        },
        _ => {},
    }
}

/// Network byte order is most significant byte first.
pub proof fn lemma_be32_arithmetic(x: u32, s: Seq<u8>)
    requires
        s.len() == 4,
    ensures
        be32_value(s) == s[0] * 16777216 + s[1] * 65536 + s[2] * 256 + s[3],
        be32(x) == seq![
            (x / 16777216) as u8,
            (x / 65536 % 256) as u8,
            (x / 256 % 256) as u8,
            (x % 256) as u8,
        ],
{
    let (a, b, c, d) = (s[0], s[1], s[2], s[3]);
    assert((a as u32) << 24u32 | (b as u32) << 16u32 | (c as u32) << 8u32 | (d as u32) == a
        * 16777216 + b * 65536 + c * 256 + d) by (bit_vector);
    assert((x >> 24u32) as u8 == (x / 16777216) as u8 && (x >> 16u32) as u8 == (x / 65536 % 256) as u8
        && (x >> 8u32) as u8 == (x / 256 % 256) as u8 && x as u8 == (x % 256) as u8) by (bit_vector);
    assert(be32(x) =~= seq![
        (x / 16777216) as u8,
        (x / 65536 % 256) as u8,
        (x / 256 % 256) as u8,
        (x % 256) as u8,
    ]);
}

/// Network byte order for 16 bits is most significant byte first.
pub proof fn lemma_be16_arithmetic(x: u16, s: Seq<u8>)
    requires
        s.len() == 2,
    ensures
        be16_value(s) == s[0] * 256 + s[1],
        be16(x) == seq![(x / 256) as u8, (x % 256) as u8],
{
    let (a, b) = (s[0], s[1]);
    assert((a as u16) << 8u16 | (b as u16) == a * 256 + b) by (bit_vector);
    assert((x >> 8u16) as u8 == (x / 256) as u8 && x as u8 == (x % 256) as u8) by (bit_vector);
    assert(be16(x) =~= seq![(x / 256) as u8, (x % 256) as u8]);
}

/// The id byte that the wire protocol gives each kind of message (a
/// keep-alive has none).
pub open spec fn wire_id(m: Msg) -> u8 {
    match m {
        Msg::KeepAlive => 0,
        Msg::Choke => 0,
        Msg::Unchoke => 1,
        Msg::Interested => 2,
        Msg::NotInterested => 3,
        Msg::Have(_) => 4,
        Msg::Bitfield(_) => 5,
        Msg::Request { .. } => 6,
        Msg::Piece { .. } => 7,
        Msg::Cancel { .. } => 8,
        Msg::Port(_) => 9,
    }
}

/// The frames of the messages without payload, byte for byte, and how
/// they decode whatever follows them.
pub proof fn lemma_wire_table(rest: Seq<u8>)
    ensures
        message_bytes(Msg::KeepAlive) == seq![0u8, 0, 0, 0],
        message_bytes(Msg::Choke) == seq![0u8, 0, 0, 1, 0],
        message_bytes(Msg::Unchoke) == seq![0u8, 0, 0, 1, 1],
        message_bytes(Msg::Interested) == seq![0u8, 0, 0, 1, 2],
        message_bytes(Msg::NotInterested) == seq![0u8, 0, 0, 1, 3],
        decode_message_spec(seq![0u8, 0, 0, 0] + rest) == Ok::<(Msg, Seq<u8>), Seq<char>>(
            (Msg::KeepAlive, rest),
        ),
        decode_message_spec(seq![0u8, 0, 0, 1, 0] + rest) == Ok::<(Msg, Seq<u8>), Seq<char>>(
            (Msg::Choke, rest),
        ),
        decode_message_spec(seq![0u8, 0, 0, 1, 1] + rest) == Ok::<(Msg, Seq<u8>), Seq<char>>(
            (Msg::Unchoke, rest),
        ),
        decode_message_spec(seq![0u8, 0, 0, 1, 2] + rest) == Ok::<(Msg, Seq<u8>), Seq<char>>(
            (Msg::Interested, rest),
        ),
        decode_message_spec(seq![0u8, 0, 0, 1, 3] + rest) == Ok::<(Msg, Seq<u8>), Seq<char>>(
            (Msg::NotInterested, rest),
        ),
{
    lemma_be32_arithmetic(0, seq![0u8, 0, 0, 0]);
    lemma_be32_arithmetic(1, seq![0u8, 0, 0, 1]);
    assert(be32(0) =~= seq![0u8, 0, 0, 0]);
    assert(be32(1) =~= seq![0u8, 0, 0, 1]);
    assert(message_bytes(Msg::Choke) =~= seq![0u8, 0, 0, 1, 0]);
    assert(message_bytes(Msg::Unchoke) =~= seq![0u8, 0, 0, 1, 1]);
    assert(message_bytes(Msg::Interested) =~= seq![0u8, 0, 0, 1, 2]);
    assert(message_bytes(Msg::NotInterested) =~= seq![0u8, 0, 0, 1, 3]);
    let k = seq![0u8, 0, 0, 0] + rest;
    assert(k.take(4) =~= seq![0u8, 0, 0, 0]);
    assert(k.skip(4) =~= rest);
    lemma_short_frame(0, rest);
    lemma_short_frame(1, rest);
    lemma_short_frame(2, rest);
    lemma_short_frame(3, rest);
}

proof fn lemma_short_frame(id: u8, rest: Seq<u8>)
    ensures
        ({
            let d = seq![0u8, 0, 0, 1, id] + rest;
            &&& d.take(4) == seq![0u8, 0, 0, 1]
            &&& d[4] == id
            &&& d.skip(5) == rest
            &&& be32_value(d.take(4)) == 1
        }),
{
    let d = seq![0u8, 0, 0, 1, id] + rest;
    assert(d.take(4) =~= seq![0u8, 0, 0, 1]);
    assert(d.skip(5) =~= rest);
    lemma_be32_arithmetic(1, seq![0u8, 0, 0, 1]);
}

/// Where each field stands in a message's frame: a length prefix that counts
/// the bytes after it, the id byte, then the payload fields in wire order.
pub proof fn lemma_message_layout(m: Msg)
    requires
        framable(m),
    ensures
        ({
            let b = message_bytes(m);
            &&& b.len() >= 4
            &&& be32_value(b.take(4)) == b.len() - 4
            &&& (m is KeepAlive <==> b.len() == 4)
            &&& (!(m is KeepAlive) ==> b[4] == wire_id(m))
            &&& (m matches Msg::Have(i) ==> b.len() == 9 && b.subrange(5, 9) == be32(i))
            &&& (m matches Msg::Bitfield(bits) ==> b.skip(5) == bits)
            &&& (m matches Msg::Request { index, begin, length } ==> b.len() == 17 && b.subrange(
                5,
                9,
            ) == be32(index) && b.subrange(9, 13) == be32(begin) && b.subrange(13, 17) == be32(
                length,
            ))
            &&& (m matches Msg::Cancel { index, begin, length } ==> b.len() == 17 && b.subrange(
                5,
                9,
            ) == be32(index) && b.subrange(9, 13) == be32(begin) && b.subrange(13, 17) == be32(
                length,
            ))
            &&& (m matches Msg::Piece { index, begin, block } ==> b.subrange(5, 9) == be32(index)
                && b.subrange(9, 13) == be32(begin) && b.skip(13) == block)
            &&& (m matches Msg::Port(p) ==> b.len() == 7 && b.subrange(5, 7) == be16(p))
        }),
{
    let b = message_bytes(m);
    let len: u32 = (b.len() - 4) as u32;
    assert(b.take(4) =~= be32(len));
    lemma_be32(len);
    match m {
        Msg::Have(i) => {
            assert(b.subrange(5, 9) =~= be32(i));
        },
        Msg::Bitfield(bits) => {
            assert(b.skip(5) =~= bits);
        },
        Msg::Request { index, begin, length } | Msg::Cancel { index, begin, length } => {
            assert(b.subrange(5, 9) =~= be32(index));
            assert(b.subrange(9, 13) =~= be32(begin));
            assert(b.subrange(13, 17) =~= be32(length));
        },
        Msg::Piece { index, begin, block } => {
            assert(b.subrange(5, 9) =~= be32(index));
            assert(b.subrange(9, 13) =~= be32(begin));
            assert(b.skip(13) =~= block);
        },
        Msg::Port(p) => {
            assert(b.subrange(5, 7) =~= be16(p));
        },
        _ => {},
    }
}

/// What a decoded message says is what its frame holds: the id byte names
/// its kind, each field is read from its place in the payload, and the rest
/// starts right after the length that the prefix announces.
pub proof fn lemma_decoded_message(data: Seq<u8>)
    ensures
        decode_message_spec(data) matches Ok((m, r)) ==> {
            let len = be32_value(data.take(4)) as int;
            &&& data.len() >= 4 + len
            &&& r == data.skip(4 + len)
            &&& (m is KeepAlive <==> len == 0)
            &&& (!(m is KeepAlive) ==> data[4] == wire_id(m))
            &&& (m matches Msg::Have(i) ==> len == 5 && i == be32_value(data.subrange(5, 9)))
            &&& (m matches Msg::Bitfield(bits) ==> bits == data.subrange(5, 4 + len))
            &&& (m matches Msg::Request { index, begin, length } ==> len == 13 && index
                == be32_value(data.subrange(5, 9)) && begin == be32_value(data.subrange(9, 13))
                && length == be32_value(data.subrange(13, 17)))
            &&& (m matches Msg::Cancel { index, begin, length } ==> len == 13 && index
                == be32_value(data.subrange(5, 9)) && begin == be32_value(data.subrange(9, 13))
                && length == be32_value(data.subrange(13, 17)))
            &&& (m matches Msg::Piece { index, begin, block } ==> len >= 9 && index == be32_value(
                data.subrange(5, 9),
            ) && begin == be32_value(data.subrange(9, 13)) && block == data.subrange(13, 4 + len))
            &&& (m matches Msg::Port(p) ==> len == 3 && p == be16_value(data.subrange(5, 7)))
        },
{
    if let Ok((m, r)) = decode_message_spec(data) {
        let len = be32_value(data.take(4)) as int;
        let payload = data.subrange(5, 4 + len);
        if len > 0 {
            if payload.len() >= 8 {
                assert(payload.subrange(0, 4) =~= data.subrange(5, 9));
                assert(payload.subrange(4, 8) =~= data.subrange(9, 13));
            }
            if payload.len() >= 12 {
                assert(payload.subrange(8, 12) =~= data.subrange(13, 17));
            }
            if payload.len() >= 8 {
                assert(payload.skip(8) =~= data.subrange(13, 4 + len));
            }
            if payload.len() == 4 {
                assert(payload =~= data.subrange(5, 9));
            }
            if payload.len() == 2 {
                assert(payload =~= data.subrange(5, 7));
            }
        }
    }
}

} // verus!

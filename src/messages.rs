//! Peer wire protocol: length-prefixed message frames and the fixed
//! 68-byte handshake.
use vstd::prelude::*;
use crate::bencode::{append_bytes, utf8_decode, utf8_text};
use crate::decimal::{ascii_chars, decimal_string, nat_text};

verus! {

/// A peer protocol message.
#[derive(Debug, PartialEq, Eq)]
pub enum BTMessage {
    Choke,
    Unchoke,
    Interested,
    NotInterested,
    Have(u32),
    /// One bit per piece, high bit of the first byte for piece 0.
    Bitfield(Vec<u8>),
    Request(u32, u32, u32),
    Piece(u32, u32, Vec<u8>),
    Cancel(u32, u32, u32),
}

/// The mathematical form of a `BTMessage`.
pub enum Message {
    Choke,
    Unchoke,
    Interested,
    NotInterested,
    Have(u32),
    Bitfield(Seq<u8>),
    Request(u32, u32, u32),
    Piece(u32, u32, Seq<u8>),
    Cancel(u32, u32, u32),
}

impl View for BTMessage {
    type V = Message;

    open spec fn view(&self) -> Message {
        match self {
            BTMessage::Choke => Message::Choke,
            BTMessage::Unchoke => Message::Unchoke,
            BTMessage::Interested => Message::Interested,
            BTMessage::NotInterested => Message::NotInterested,
            BTMessage::Have(i) => Message::Have(*i),
            BTMessage::Bitfield(b) => Message::Bitfield(b@),
            BTMessage::Request(i, b, l) => Message::Request(*i, *b, *l),
            BTMessage::Piece(i, b, d) => Message::Piece(*i, *b, d@),
            BTMessage::Cancel(i, b, l) => Message::Cancel(*i, *b, *l),
        }
    }
}

/// Why a frame could not become a message.
#[derive(Debug, Clone, Copy, PartialEq, Eq, Structural)]
pub enum FrameError {
    /// The type byte names no message.
    UnknownMessageType(u8),
    /// The payload is too short for the message's fixed-width fields.
    TruncatedPayload,
    /// The message does not fit in a frame: its length exceeds `u32`.
    Oversized,
}

/// Why a handshake could not be read.
#[derive(Debug, Clone, Copy, PartialEq, Eq, Structural)]
pub enum HandshakeError {
    /// Fewer than 68 bytes were supplied.
    ShortHandshake,
}

/// Big-endian bytes of a 32-bit integer.
pub open spec fn be32(x: u32) -> Seq<u8> {
    seq![(x >> 24u32) as u8, (x >> 16u32) as u8, (x >> 8u32) as u8, x as u8]
}

/// Big-endian bytes of a 64-bit integer.
pub open spec fn be64(x: u64) -> Seq<u8> {
    seq![
        (x >> 56u64) as u8,
        (x >> 48u64) as u8,
        (x >> 40u64) as u8,
        (x >> 32u64) as u8,
        (x >> 24u64) as u8,
        (x >> 16u64) as u8,
        (x >> 8u64) as u8,
        x as u8,
    ]
}

/// The 32-bit integer that four bytes at `at` spell, big-endian.
pub open spec fn read_be32(s: Seq<u8>, at: int) -> u32 {
    ((s[at] as u32) << 24u32) | ((s[at + 1] as u32) << 16u32) | ((s[at + 2] as u32) << 8u32) | (s[at
        + 3] as u32)
}

pub proof fn lemma_be32_round_trip(x: u32)
    ensures
        read_be32(be32(x), 0) == x,
{
    let b = be32(x);
    let (b0, b1, b2, b3) = (b[0], b[1], b[2], b[3]);
    assert(b0 == (x >> 24u32) as u8 && b1 == (x >> 16u32) as u8 && b2 == (x >> 8u32) as u8 && b3
        == x as u8);
    assert(((((x >> 24u32) as u8) as u32) << 24u32) | ((((x >> 16u32) as u8) as u32) << 16u32) | (
    (((x >> 8u32) as u8) as u32) << 8u32) | ((x as u8) as u32) == x) by (bit_vector);
}

/// The message type byte.
pub open spec fn type_byte(m: Message) -> u8 {
    match m {
        Message::Choke => 0,
        Message::Unchoke => 1,
        Message::Interested => 2,
        Message::NotInterested => 3,
        Message::Have(_) => 4,
        Message::Bitfield(_) => 5,
        Message::Request(..) => 6,
        Message::Piece(..) => 7,
        Message::Cancel(..) => 8,
    }
}

/// The bytes after the type byte.
pub open spec fn payload(m: Message) -> Seq<u8> {
    match m {
        Message::Have(i) => be32(i),
        Message::Bitfield(b) => b,
        Message::Request(i, b, l) => be32(i) + be32(b) + be32(l),
        Message::Piece(i, b, d) => be32(i) + be32(b) + d,
        Message::Cancel(i, b, l) => be32(i) + be32(b) + be32(l),
        _ => Seq::empty(),
    }
}

/// Whether the message's length prefix fits in 32 bits.
pub open spec fn fits_frame(m: Message) -> bool {
    1 + payload(m).len() <= u32::MAX
}

/// The whole frame: length prefix, type byte, payload.
pub open spec fn frame(m: Message) -> Seq<u8> {
    be32((1 + payload(m).len()) as u32) + seq![type_byte(m)] + payload(m)
}

/// The message that a type byte and payload spell. Bytes past a message's
/// fixed-width fields are ignored.
pub open spec fn message_from(t: u8, p: Seq<u8>) -> Result<Message, FrameError> {
    if t == 0 {
        Ok(Message::Choke)
    } else if t == 1 {
        Ok(Message::Unchoke)
    } else if t == 2 {
        Ok(Message::Interested)
    } else if t == 3 {
        Ok(Message::NotInterested)
    } else if t == 4 {
        if p.len() >= 4 {
            Ok(Message::Have(read_be32(p, 0)))
        } else {
            Err(FrameError::TruncatedPayload)
        }
    } else if t == 5 {
        Ok(Message::Bitfield(p))
    } else if t == 6 || t == 8 {
        if p.len() >= 12 {
            if t == 6 {
                Ok(Message::Request(read_be32(p, 0), read_be32(p, 4), read_be32(p, 8)))
            } else {
                Ok(Message::Cancel(read_be32(p, 0), read_be32(p, 4), read_be32(p, 8)))
            }
        } else {
            Err(FrameError::TruncatedPayload)
        }
    } else if t == 7 {
        if p.len() >= 8 {
            Ok(Message::Piece(read_be32(p, 0), read_be32(p, 4), p.subrange(8, p.len() as int)))
        } else {
            Err(FrameError::TruncatedPayload)
        }
    } else {
        Err(FrameError::UnknownMessageType(t))
    }
}

/// What reading one frame from the front of `b` gives, and how many bytes
/// it takes: nothing while the frame is incomplete; nothing for a
/// keep-alive (a zero length), which is consumed.
pub open spec fn decode_frame(b: Seq<u8>) -> (Result<Option<Message>, FrameError>, int) {
    if b.len() < 4 {
        (Ok(None), 0)
    } else {
        let n = read_be32(b, 0) as int;
        if n + 4 > b.len() {
            (Ok(None), 0)
        } else if n == 0 {
            (Ok(None), 4)
        } else {
            (
                match message_from(b[4], b.subrange(5, 4 + n)) {
                    Ok(m) => Ok(Some(m)),
                    Err(e) => Err(e),
                },
                4 + n,
            )
        }
    }
}

pub open spec fn result_view(r: Result<Option<BTMessage>, FrameError>) -> Result<
    Option<Message>,
    FrameError,
> {
    match r {
        Ok(Some(m)) => Ok(Some(m@)),
        Ok(None) => Ok(None),
        Err(e) => Err(e),
    }
}

fn push_be32(out: &mut Vec<u8>, x: u32)
    ensures
        final(out)@ == old(out)@ + be32(x),
{
    out.push((x >> 24u32) as u8);
    out.push((x >> 16u32) as u8);
    out.push((x >> 8u32) as u8);
    out.push(x as u8);
    proof {
        assert(final(out)@ =~= old(out)@ + be32(x));
    }
}

fn get_be32(s: &[u8], at: usize) -> (r: u32)
    requires
        at + 4 <= s@.len(),
    ensures
        r == read_be32(s@, at as int),
{
    ((s[at] as u32) << 24u32) | ((s[at + 1] as u32) << 16u32) | ((s[at + 2] as u32) << 8u32) | (s[at
        + 3] as u32)
}

impl BTMessage {
    /// The message for a type byte and its payload.
    pub fn new(message_type: u8, payload: Vec<u8>) -> (r: Result<Self, FrameError>)
        ensures
            match message_from(message_type, payload@) {
                Ok(m) => (r matches Ok(x) && x@ == m),
                Err(e) => r == Err::<BTMessage, FrameError>(e),
            },
    {
        let n = payload.len();
        match message_type {
            0u8 => Ok(BTMessage::Choke),
            1u8 => Ok(BTMessage::Unchoke),
            2u8 => Ok(BTMessage::Interested),
            3u8 => Ok(BTMessage::NotInterested),
            4u8 => {
                if n < 4 {
                    return Err(FrameError::TruncatedPayload);
                }
                Ok(BTMessage::Have(get_be32(payload.as_slice(), 0)))
            },
            5u8 => Ok(BTMessage::Bitfield(payload)),
            6u8 | 8u8 => {
                if n < 12 {
                    return Err(FrameError::TruncatedPayload);
                }
                let i = get_be32(payload.as_slice(), 0);
                let b = get_be32(payload.as_slice(), 4);
                let l = get_be32(payload.as_slice(), 8);
                if message_type == 6u8 {
                    Ok(BTMessage::Request(i, b, l))
                } else {
                    Ok(BTMessage::Cancel(i, b, l))
                }
            },
            7u8 => {
                if n < 8 {
                    return Err(FrameError::TruncatedPayload);
                }
                let i = get_be32(payload.as_slice(), 0);
                let b = get_be32(payload.as_slice(), 4);
                let mut block: Vec<u8> = Vec::new();
                let mut k: usize = 8;
                while k < n
                    invariant
                        8 <= k <= n == payload@.len(),
                        block@ == payload@.subrange(8, k as int),
                    decreases n - k,
                {
                    block.push(payload[k]);
                    k = k + 1;
                    proof {
                        assert(block@ =~= payload@.subrange(8, k as int));
                    }
                }
                Ok(BTMessage::Piece(i, b, block))
            },
            _ => Err(FrameError::UnknownMessageType(message_type)),
        }
    }

    /// The whole frame for this message: a big-endian length prefix
    /// counting the type byte and payload, the type byte, the payload.
    pub fn serialize(&self) -> (r: Result<Vec<u8>, FrameError>)
        ensures
            fits_frame(self@) ==> (r matches Ok(b) && b@ == frame(self@)),
            !fits_frame(self@) ==> r == Err::<Vec<u8>, FrameError>(FrameError::Oversized),
    {
        let mut out: Vec<u8> = Vec::new();
        match self {
            BTMessage::Choke => {
                push_be32(&mut out, 1);
                out.push(0u8);
            },
            BTMessage::Unchoke => {
                push_be32(&mut out, 1);
                out.push(1u8);
            },
            BTMessage::Interested => {
                push_be32(&mut out, 1);
                out.push(2u8);
            },
            BTMessage::NotInterested => {
                push_be32(&mut out, 1);
                out.push(3u8);
            },
            BTMessage::Have(i) => {
                push_be32(&mut out, 5);
                out.push(4u8);
                push_be32(&mut out, *i);
            },
            BTMessage::Bitfield(bits) => {
                if bits.len() > 4294967294usize {
                    return Err(FrameError::Oversized);
                }
                push_be32(&mut out, (1 + bits.len()) as u32);
                out.push(5u8);
                append_bytes(&mut out, bits.as_slice());
            },
            BTMessage::Request(i, b, l) => {
                push_be32(&mut out, 13);
                out.push(6u8);
                push_be32(&mut out, *i);
                push_be32(&mut out, *b);
                push_be32(&mut out, *l);
            },
            BTMessage::Piece(i, b, block) => {
                if block.len() > 4294967286usize {
                    return Err(FrameError::Oversized);
                }
                push_be32(&mut out, (9 + block.len()) as u32);
                out.push(7u8);
                push_be32(&mut out, *i);
                push_be32(&mut out, *b);
                append_bytes(&mut out, block.as_slice());
            },
            BTMessage::Cancel(i, b, l) => {
                push_be32(&mut out, 13);
                out.push(8u8);
                push_be32(&mut out, *i);
                push_be32(&mut out, *b);
                push_be32(&mut out, *l);
            },
        }
        proof {
            assert(out@ =~= frame(self@));
        }
        Ok(out)
    }
}

/// Turns a byte stream into messages and messages into bytes.
pub struct BTMessageFramer;

fn copy_range(s: &[u8], from: usize, to: usize) -> (r: Vec<u8>)
    requires
        from <= to <= s@.len(),
    ensures
        r@ == s@.subrange(from as int, to as int),
{
    let mut r: Vec<u8> = Vec::new();
    let mut k: usize = from;
    while k < to
        invariant
            from <= k <= to <= s@.len(),
            r@ == s@.subrange(from as int, k as int),
        decreases to - k,
    {
        r.push(s[k]);
        k = k + 1;
        proof {
            assert(r@ =~= s@.subrange(from as int, k as int));
        }
    }
    r
}

impl BTMessageFramer {
    /// Reads one frame from the front of `src` and removes the bytes it
    /// used: `Ok(None)` while the frame is incomplete (nothing is removed)
    /// and for a keep-alive (its four bytes are removed).
    pub fn decode(&mut self, src: &mut Vec<u8>) -> (r: Result<Option<BTMessage>, FrameError>)
        ensures
            result_view(r) == decode_frame(old(src)@).0,
            final(src)@ == old(src)@.skip(decode_frame(old(src)@).1),
    {
        let len = src.len();
        if len < 4 {
            proof {
                assert(old(src)@.skip(0) =~= old(src)@);
            }
            return Ok(None);
        }
        let n = get_be32(src.as_slice(), 0) as usize;
        if n > len - 4 {
            proof {
                assert(old(src)@.skip(0) =~= old(src)@);
            }
            return Ok(None);
        }
        if n == 0 {
            *src = copy_range(src.as_slice(), 4, len);
            return Ok(None);
        }
        let message_type = src[4];
        let payload = copy_range(src.as_slice(), 5, 4 + n);
        *src = copy_range(src.as_slice(), 4 + n, len);
        match BTMessage::new(message_type, payload) {
            Ok(m) => Ok(Some(m)),
            Err(e) => Err(e),
        }
    }

    /// Appends the frame of `item` to `dst`.
    pub fn encode(&mut self, item: BTMessage, dst: &mut Vec<u8>) -> (r: Result<(), FrameError>)
        ensures
            fits_frame(item@) ==> r is Ok && final(dst)@ == old(dst)@ + frame(item@),
            !fits_frame(item@) ==> r == Err::<(), FrameError>(FrameError::Oversized) && final(dst)@
                == old(dst)@,
    {
        let bytes = item.serialize()?;
        append_bytes(dst, bytes.as_slice());
        Ok(())
    }
}

proof fn lemma_read_at(s: Seq<u8>, at: int, x: u32)
    requires
        0 <= at,
        at + 4 <= s.len(),
        s.subrange(at, at + 4) == be32(x),
    ensures
        read_be32(s, at) == x,
{
    assert(s[at] == s.subrange(at, at + 4)[0]);
    assert(s[at + 1] == s.subrange(at, at + 4)[1]);
    assert(s[at + 2] == s.subrange(at, at + 4)[2]);
    assert(s[at + 3] == s.subrange(at, at + 4)[3]);
    lemma_be32_round_trip(x);
}

/// Every message whose length fits a frame reads back from its own frame,
/// and the whole frame is consumed.
pub proof fn lemma_frame_round_trip(m: BTMessage)
    requires
        fits_frame(m@),
    ensures
        decode_frame(frame(m@)) == (Ok::<_, FrameError>(Some(m@)), frame(m@).len() as int),
{
    let v = m@;
    let p = payload(v);
    let f = frame(v);
    let n = (1 + p.len()) as u32;
    assert(f.subrange(0, 4) =~= be32(n));
    lemma_read_at(f, 0, n);
    assert(f[4] == type_byte(v));
    assert(f.subrange(5, 4 + n) =~= p);
    match v {
        Message::Have(i) => {
            assert(p.subrange(0, 4) =~= be32(i));
            lemma_read_at(p, 0, i);
        },
        Message::Request(i, b, l) | Message::Cancel(i, b, l) => {
            assert(p.subrange(0, 4) =~= be32(i));
            assert(p.subrange(4, 8) =~= be32(b));
            assert(p.subrange(8, 12) =~= be32(l));
            lemma_read_at(p, 0, i);
            lemma_read_at(p, 4, b);
            lemma_read_at(p, 8, l);
        },
        Message::Piece(i, b, d) => {
            assert(p.subrange(0, 4) =~= be32(i));
            assert(p.subrange(4, 8) =~= be32(b));
            lemma_read_at(p, 0, i);
            lemma_read_at(p, 4, b);
            assert(p.subrange(8, p.len() as int) =~= d);
        },
        _ => {},
    }
}

/// The fixed record that opens a peer connection.
#[derive(Debug, PartialEq, Eq)]
pub struct Handshake {
    pub length: u8,
    pub protocol: Vec<u8>,
    pub reserved: u64,
    pub info_hash: Vec<u8>,
    pub peer_id: Vec<u8>,
}

/// The ASCII bytes of `BitTorrent protocol`.
pub open spec fn protocol_name() -> Seq<u8> {
    seq![66u8, 105, 116, 84, 111, 114, 114, 101, 110, 116, 32, 112, 114, 111, 116, 111, 99, 111, 108]
}

/// The hex digit for `n < 16`, lower case.
pub open spec fn hex_digit(n: int) -> char {
    if n < 10 {
        (48 + n) as char
    } else {
        (87 + n) as char
    }
}

/// Two lower-case hex digits per byte.
pub open spec fn hex_text(s: Seq<u8>) -> Seq<char>
    decreases s.len(),
{
    if s.len() == 0 {
        Seq::empty()
    } else {
        hex_text(s.drop_last()) + seq![hex_digit(s.last() as int / 16), hex_digit(s.last() as int % 16)]
    }
}

fn hex_str(n: u8) -> (r: &'static str)
    requires
        n < 16,
    ensures
        r@ == seq![hex_digit(n as int)],
{
    proof {
        reveal_strlit("0");
        reveal_strlit("1");
        reveal_strlit("2");
        reveal_strlit("3");
        reveal_strlit("4");
        reveal_strlit("5");
        reveal_strlit("6");
        reveal_strlit("7");
        reveal_strlit("8");
        reveal_strlit("9");
        reveal_strlit("a");
        reveal_strlit("b");
        reveal_strlit("c");
        reveal_strlit("d");
        reveal_strlit("e");
        reveal_strlit("f");
    }
    match n {
        0u8 => "0",
        1u8 => "1",
        2u8 => "2",
        3u8 => "3",
        4u8 => "4",
        5u8 => "5",
        6u8 => "6",
        7u8 => "7",
        8u8 => "8",
        9u8 => "9",
        10u8 => "a",
        11u8 => "b",
        12u8 => "c",
        13u8 => "d",
        14u8 => "e",
        _ => "f",
    }
}

/// Lower-case hex, two digits per byte.
pub fn hex_string(b: &[u8]) -> (r: String)
    ensures
        r@ == hex_text(b@),
{
    let mut out = String::new();
    let mut k: usize = 0;
    proof {
        assert(b@.take(0) =~= Seq::<u8>::empty());
    }
    while k < b.len()
        invariant
            k <= b@.len(),
            out@ == hex_text(b@.take(k as int)),
        decreases b@.len() - k,
    {
        let x = b[k];
        out.append(hex_str(x / 16));
        out.append(hex_str(x % 16));
        proof {
            assert(b@.take(k + 1).drop_last() =~= b@.take(k as int));
            assert(out@ =~= hex_text(b@.take(k + 1)));
        }
        k = k + 1;
    }
    proof {
        assert(b@.take(k as int) =~= b@);
    }
    out
}

impl Handshake {
    /// A handshake for `info_hash` from `peer_id`: protocol name
    /// `BitTorrent protocol`, reserved bytes zero.
    pub fn new(peer_id: &[u8], info_hash: &[u8]) -> (r: Self)
        requires
            peer_id@.len() == 20,
            info_hash@.len() == 20,
        ensures
            r.length == 19,
            r.protocol@ == protocol_name(),
            r.reserved == 0,
            r.info_hash@ == info_hash@,
            r.peer_id@ == peer_id@,
    {
        let protocol: Vec<u8> = vec![
            66u8, 105, 116, 84, 111, 114, 114, 101, 110, 116, 32, 112, 114, 111, 116, 111, 99, 111, 108,
        ];
        let mut hash: Vec<u8> = Vec::new();
        append_bytes(&mut hash, info_hash);
        let mut id: Vec<u8> = Vec::new();
        append_bytes(&mut id, peer_id);
        proof {
            assert(protocol@ =~= protocol_name());
            assert(hash@ =~= info_hash@);
            assert(id@ =~= peer_id@);
        }
        Handshake { length: 19, protocol, reserved: 0, info_hash: hash, peer_id: id }
    }

    /// The 68 wire bytes: name length, name, 8 reserved bytes, info hash, peer id.
    pub fn serialize(&self) -> (r: Vec<u8>)
        ensures
            r@ == handshake_bytes(*self),
    {
        let mut out: Vec<u8> = Vec::new();
        out.push(self.length);
        append_bytes(&mut out, self.protocol.as_slice());
        let x = self.reserved;
        out.push((x >> 56u64) as u8);
        out.push((x >> 48u64) as u8);
        out.push((x >> 40u64) as u8);
        out.push((x >> 32u64) as u8);
        out.push((x >> 24u64) as u8);
        out.push((x >> 16u64) as u8);
        out.push((x >> 8u64) as u8);
        out.push(x as u8);
        append_bytes(&mut out, self.info_hash.as_slice());
        append_bytes(&mut out, self.peer_id.as_slice());
        proof {
            assert(out@ =~= seq![self.length] + self.protocol@ + be64(self.reserved)
                + self.info_hash@ + self.peer_id@);
        }
        out
    }

    /// Reads a handshake from its 68 wire bytes; the reserved bytes are
    /// ignored and read as zero.
    pub fn deserialize(bytes: &[u8]) -> (r: Result<Self, HandshakeError>)
        ensures
            bytes@.len() < 68 ==> r == Err::<Handshake, HandshakeError>(
                HandshakeError::ShortHandshake,
            ),
            bytes@.len() >= 68 ==> (r matches Ok(h) && h.length == bytes@[0] && h.protocol@
                == bytes@.subrange(1, 20) && h.reserved == 0 && h.info_hash@ == bytes@.subrange(
                28,
                48,
            ) && h.peer_id@ == bytes@.subrange(48, 68)),
    {
        if bytes.len() < 68 {
            return Err(HandshakeError::ShortHandshake);
        }
        Ok(
            Handshake {
                length: bytes[0],
                protocol: copy_range(bytes, 1, 20),
                reserved: 0,
                info_hash: copy_range(bytes, 28, 48),
                peer_id: copy_range(bytes, 48, 68),
            },
        )
    }

    /// A one-line description:
    /// `Handshake[length: .., protocol: '..', reserved: .., info_hash: .., peer_id: ..]`,
    /// with the hash and id in hex; `None` when the protocol name is not text.
    pub fn describe(&self) -> (r: Option<String>)
        ensures
            match utf8_decode(self.protocol@) {
                None => r is None,
                Some(p) => (r matches Some(s) && s@ == "Handshake[length: "@ + ascii_chars(
                    nat_text(self.length as nat),
                ) + ", protocol: '"@ + p + "', reserved: "@ + ascii_chars(
                    nat_text(self.reserved as nat),
                ) + ", info_hash: "@ + hex_text(self.info_hash@) + ", peer_id: "@ + hex_text(
                    self.peer_id@,
                ) + "]"@),
            },
    {
        let protocol = match utf8_text(self.protocol.as_slice()) {
            Some(p) => p,
            None => return None,
        };
        let mut out = String::new();
        out.append("Handshake[length: ");
        out.append(decimal_string(self.length as u64).as_str());
        out.append(", protocol: '");
        out.append(protocol);
        out.append("', reserved: ");
        out.append(decimal_string(self.reserved).as_str());
        out.append(", info_hash: ");
        out.append(hex_string(self.info_hash.as_slice()).as_str());
        out.append(", peer_id: ");
        out.append(hex_string(self.peer_id.as_slice()).as_str());
        out.append("]");
        Some(out)
    }

    /// The peer id as lower-case hex, two digits per byte.
    pub fn peer_id(&self) -> (r: String)
        ensures
            r@ == hex_text(self.peer_id@),
    {
        hex_string(self.peer_id.as_slice())
    }
}

/// The wire bytes of a handshake.
pub open spec fn handshake_bytes(h: Handshake) -> Seq<u8> {
    seq![h.length] + h.protocol@ + be64(h.reserved) + h.info_hash@ + h.peer_id@
}

/// A handshake with fields of their fixed sizes serializes to 68 bytes, from
/// which `deserialize` reads back its length byte, name, info hash and peer id.
pub proof fn lemma_handshake_layout(h: Handshake)
    requires
        h.protocol@.len() == 19,
        h.info_hash@.len() == 20,
        h.peer_id@.len() == 20,
    ensures
        handshake_bytes(h).len() == 68,
        handshake_bytes(h)[0] == h.length,
        handshake_bytes(h).subrange(1, 20) == h.protocol@,
        handshake_bytes(h).subrange(20, 28) == be64(h.reserved),
        handshake_bytes(h).subrange(28, 48) == h.info_hash@,
        handshake_bytes(h).subrange(48, 68) == h.peer_id@,
{
    let b = handshake_bytes(h);
    assert(b.subrange(1, 20) =~= h.protocol@);
    assert(b.subrange(20, 28) =~= be64(h.reserved));
    assert(b.subrange(28, 48) =~= h.info_hash@);
    assert(b.subrange(48, 68) =~= h.peer_id@);
}

} // verus!

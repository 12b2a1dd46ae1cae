//! The peer-wire message codec: the fixed 68-byte handshake frame and the
//! length-prefixed message frames (choke, unchoke, interested, not
//! interested, have, bitfield, request, piece, cancel).
//!
//! Decoding is incremental: a decoder called on a buffer that does not yet
//! hold a whole frame reports that more bytes are needed and consumes
//! nothing, so it can be called again as bytes arrive from the stream.
use vstd::prelude::*;

verus! {

/// The one-time handshake frame's payload: the torrent's info-hash and the
/// sender's peer id.
pub struct Handshake {
    pub info_hash: [u8; 20],
    pub peer_id: [u8; 20],
}

/// A request for (or cancellation of) a block: piece index, byte offset
/// within the piece, block length.
pub struct Request {
    pub index: u32,
    pub begin: u32,
    pub length: u32,
}

/// A block of piece data: piece index, byte offset within the piece, and the
/// bytes themselves.
pub struct Piece {
    pub index: u32,
    pub begin: u32,
    pub block: Vec<u8>,
}

impl Piece {
    pub fn new(index: u32, begin: u32, block: Vec<u8>) -> (r: Piece)
        ensures
            r.index == index,
            r.begin == begin,
            r.block@ == block@,
    {
        Piece { index, begin, block }
    }
}

#[verifier::external_type_specification]
#[verifier::external_body]
#[verifier::reject_recursive_types(B)]
pub struct ExBitVec<B>(bit_vec::BitVec<B>);

/// The bits a `bit_vec::BitVec` holds, in order.
pub uninterp spec fn bits_of(bv: bit_vec::BitVec) -> Seq<bool>;

/// Bit `k` (most significant first) of a byte.
pub open spec fn byte_bit(byte: u8, k: int) -> bool
    recommends
        0 <= k < 8,
{
    ((byte as u32) >> ((7 - k) as u32)) & 1 == 1
}

/// The bits of a byte string, each byte giving eight bits most significant
/// first: how a wire bitfield payload reads as a bitset.
pub open spec fn spec_bits_of_bytes(b: Seq<u8>) -> Seq<bool> {
    Seq::new((b.len() * 8) as nat, |i: int| byte_bit(b[i / 8], i % 8))
}

/// The weight a bit contributes to its byte, bits past the end reading as
/// zero.
pub open spec fn bit_val(bits: Seq<bool>, j: int, w: int) -> int {
    if 0 <= j < bits.len() && bits[j] {
        w
    } else {
        0
    }
}

/// The byte packing bits `8*i .. 8*i + 8`, most significant first.
pub open spec fn byte_of_bits(bits: Seq<bool>, i: int) -> u8 {
    (bit_val(bits, 8 * i, 128) + bit_val(bits, 8 * i + 1, 64) + bit_val(bits, 8 * i + 2, 32)
        + bit_val(bits, 8 * i + 3, 16) + bit_val(bits, 8 * i + 4, 8) + bit_val(bits, 8 * i + 5, 4)
        + bit_val(bits, 8 * i + 6, 2) + bit_val(bits, 8 * i + 7, 1)) as u8
}

/// The bytes packing a bitset, most significant bit first, the last byte
/// padded with zero bits: how a bitset is put on the wire.
pub open spec fn spec_bytes_of_bits(bits: Seq<bool>) -> Seq<u8> {
    Seq::new(((bits.len() + 7) / 8) as nat, |i: int| byte_of_bits(bits, i))
}

/// Relies on `bit_vec::BitVec::from_bytes`: each byte becomes eight bits,
/// most significant first.
#[verifier::external_body]
fn bitvec_from_bytes(bytes: &[u8]) -> (r: bit_vec::BitVec)
    ensures
        bits_of(r) == spec_bits_of_bytes(bytes@),
{
    bit_vec::BitVec::from_bytes(bytes)
}

/// Relies on `bit_vec::BitVec::to_bytes`: the bits packed most significant
/// first, the last byte padded with zero bits.
#[verifier::external_body]
fn bitvec_to_bytes(bv: &bit_vec::BitVec) -> (r: Vec<u8>)
    ensures
        r@ == spec_bytes_of_bits(bits_of(*bv)),
{
    bv.to_bytes()
}

/// Relies on `bit_vec::BitVec::len`: the number of bits held.
#[verifier::external_body]
pub(crate) fn bitvec_len(bv: &bit_vec::BitVec) -> (r: usize)
    ensures
        r == bits_of(*bv).len(),
{
    bv.len()
}

/// Relies on `bit_vec::BitVec::from_elem`: `len` copies of `bit`.
#[verifier::external_body]
pub(crate) fn bitvec_from_elem(len: usize, bit: bool) -> (r: bit_vec::BitVec)
    ensures
        bits_of(r) == Seq::new(len as nat, |i: int| bit),
{
    bit_vec::BitVec::from_elem(len, bit)
}

/// Relies on `bit_vec::BitVec::clone`: an equal copy of the bits.
#[verifier::external_body]
pub(crate) fn bitvec_clone(bv: &bit_vec::BitVec) -> (r: bit_vec::BitVec)
    ensures
        bits_of(r) == bits_of(*bv),
{
    bv.clone()
}

/// A peer-wire message: the handshake frame or one of the length-prefixed
/// frames.
pub enum Message {
    Handshake(Handshake),
    Choke,
    Unchoke,
    Interested,
    NotInterested,
    Have(u32),
    Bitfield(bit_vec::BitVec),
    Request(Request),
    Piece(Piece),
    Cancel(Request),
}

/// The mathematical shape of a `Message`: sequences for the byte buffers and
/// the bitset.
pub enum MessageView {
    Handshake { info_hash: Seq<u8>, peer_id: Seq<u8> },
    Choke,
    Unchoke,
    Interested,
    NotInterested,
    Have(u32),
    Bitfield(Seq<bool>),
    Request { index: u32, begin: u32, length: u32 },
    Piece { index: u32, begin: u32, block: Seq<u8> },
    Cancel { index: u32, begin: u32, length: u32 },
}

impl View for Message {
    type V = MessageView;

    open spec fn view(&self) -> MessageView {
        match self {
            Message::Handshake(h) => MessageView::Handshake {
                info_hash: h.info_hash@,
                peer_id: h.peer_id@,
            },
            Message::Choke => MessageView::Choke,
            Message::Unchoke => MessageView::Unchoke,
            Message::Interested => MessageView::Interested,
            Message::NotInterested => MessageView::NotInterested,
            Message::Have(n) => MessageView::Have(*n),
            Message::Bitfield(bv) => MessageView::Bitfield(bits_of(*bv)),
            Message::Request(r) => MessageView::Request {
                index: r.index,
                begin: r.begin,
                length: r.length,
            },
            Message::Piece(p) => MessageView::Piece {
                index: p.index,
                begin: p.begin,
                block: p.block@,
            },
            Message::Cancel(r) => MessageView::Cancel {
                index: r.index,
                begin: r.begin,
                length: r.length,
            },
        }
    }
}

/// Why a frame was rejected.  Every such error is fatal to the one peer
/// session whose stream produced it.
#[derive(Debug, PartialEq, Eq, Clone, Copy)]
pub enum WireError {
    /// A 68-byte handshake frame did not carry the protocol literal.
    BadHandshake,
    /// A frame's length prefix does not fit its message type, or a payload
    /// is too large to frame.
    BadLength,
    /// The type id byte names no known message.
    UnknownId,
}

/// The 20 bytes that open every handshake frame: the length byte 19, then
/// the ASCII protocol name.
pub open spec fn handshake_prefix() -> Seq<u8> {
    seq![
        0x13u8,
        0x42u8,
        0x69u8,
        0x74u8,
        0x54u8,
        0x6fu8,
        0x72u8,
        0x72u8,
        0x65u8,
        0x6eu8,
        0x74u8,
        0x20u8,
        0x70u8,
        0x72u8,
        0x6fu8,
        0x74u8,
        0x6fu8,
        0x63u8,
        0x6fu8,
        0x6cu8,
    ]
}

/// The buffer agrees with the handshake prefix as far as it goes: nothing
/// read so far rules a handshake out.
pub open spec fn is_handshake_prefix(b: Seq<u8>) -> bool {
    forall|i: int| 0 <= i < b.len() && i < 20 ==> b[i] == handshake_prefix()[i]
}

/// A 32-bit number in big-endian byte order.
pub open spec fn spec_be32(n: u32) -> Seq<u8> {
    seq![(n >> 24) as u8, ((n >> 16) & 0xff) as u8, ((n >> 8) & 0xff) as u8, (n & 0xff) as u8]
}

/// The 32-bit number written big-endian at `pos`.
pub open spec fn spec_read_be32(b: Seq<u8>, pos: int) -> u32
    recommends
        0 <= pos,
        pos + 4 <= b.len(),
{
    (((b[pos] as u32) << 24) | ((b[pos + 1] as u32) << 16) | ((b[pos + 2] as u32) << 8) | (b[pos
        + 3] as u32))
}

/// Whether a message fits in a frame: its payload length, plus the type id
/// byte, must fit the 32-bit length prefix.
pub open spec fn frame_fits(m: MessageView) -> bool {
    match m {
        MessageView::Bitfield(bits) => 1 + spec_bytes_of_bits(bits).len() <= u32::MAX,
        MessageView::Piece { index, begin, block } => 9 + block.len() <= u32::MAX,
        _ => true,
    }
}

/// The wire bytes of a message: the fixed 68-byte form for the handshake,
/// and a big-endian length prefix (covering the type id byte and the
/// payload), the type id, then the payload for every other message.
pub open spec fn spec_encode_frame(m: MessageView) -> Seq<u8>
    recommends
        frame_fits(m),
{
    match m {
        MessageView::Handshake { info_hash, peer_id } => handshake_prefix() + Seq::new(
            8,
            |i: int| 0u8,
        ) + info_hash + peer_id,
        MessageView::Choke => spec_be32(1) + seq![0u8],
        MessageView::Unchoke => spec_be32(1) + seq![1u8],
        MessageView::Interested => spec_be32(1) + seq![2u8],
        MessageView::NotInterested => spec_be32(1) + seq![3u8],
        MessageView::Have(n) => spec_be32(5) + seq![4u8] + spec_be32(n),
        MessageView::Bitfield(bits) => spec_be32(
            (1 + spec_bytes_of_bits(bits).len()) as u32,
        ) + seq![5u8] + spec_bytes_of_bits(bits),
        MessageView::Request { index, begin, length } => spec_be32(13) + seq![6u8] + spec_be32(
            index,
        ) + spec_be32(begin) + spec_be32(length),
        MessageView::Piece { index, begin, block } => spec_be32(
            (9 + block.len()) as u32,
        ) + seq![7u8] + spec_be32(index) + spec_be32(begin) + block,
        MessageView::Cancel { index, begin, length } => spec_be32(13) + seq![8u8] + spec_be32(
            index,
        ) + spec_be32(begin) + spec_be32(length),
    }
}

/// What one decoding step on a buffer yields: `Ok(None)` when no whole frame
/// is buffered yet (nothing may be consumed), `Ok(Some((message, n)))` when
/// the first `n` bytes form a frame, and an error on a malformed frame.
/// A buffer opening with the handshake prefix is always read as a handshake,
/// never as a length-prefixed frame.
pub open spec fn spec_decode_frame(b: Seq<u8>) -> Result<Option<(MessageView, int)>, WireError> {
    if is_handshake_prefix(b) {
        if b.len() < 68 {
            Ok(None)
        } else {
            Ok(
                Some(
                    (
                        MessageView::Handshake {
                            info_hash: b.subrange(28, 48),
                            peer_id: b.subrange(48, 68),
                        },
                        68,
                    ),
                ),
            )
        }
    } else if b.len() < 4 {
        Ok(None)
    } else {
        let length = spec_read_be32(b, 0) as int;
        if b.len() < 4 + length {
            Ok(None)
        } else if length < 1 {
            Err(WireError::BadLength)
        } else {
            let id = b[4];
            if id == 0 {
                if length == 1 {
                    Ok(Some((MessageView::Choke, 4 + length)))
                } else {
                    Err(WireError::BadLength)
                }
            } else if id == 1 {
                if length == 1 {
                    Ok(Some((MessageView::Unchoke, 4 + length)))
                } else {
                    Err(WireError::BadLength)
                }
            } else if id == 2 {
                if length == 1 {
                    Ok(Some((MessageView::Interested, 4 + length)))
                } else {
                    Err(WireError::BadLength)
                }
            } else if id == 3 {
                if length == 1 {
                    Ok(Some((MessageView::NotInterested, 4 + length)))
                } else {
                    Err(WireError::BadLength)
                }
            } else if id == 4 {
                if length == 5 {
                    Ok(Some((MessageView::Have(spec_read_be32(b, 5)), 4 + length)))
                } else {
                    Err(WireError::BadLength)
                }
            } else if id == 5 {
                Ok(
                    Some(
                        (
                            MessageView::Bitfield(spec_bits_of_bytes(b.subrange(5, 4 + length))),
                            4 + length,
                        ),
                    ),
                )
            } else if id == 6 {
                if length == 13 {
                    Ok(
                        Some(
                            (
                                MessageView::Request {
                                    index: spec_read_be32(b, 5),
                                    begin: spec_read_be32(b, 9),
                                    length: spec_read_be32(b, 13),
                                },
                                4 + length,
                            ),
                        ),
                    )
                } else {
                    Err(WireError::BadLength)
                }
            } else if id == 7 {
                if length >= 9 {
                    Ok(
                        Some(
                            (
                                MessageView::Piece {
                                    index: spec_read_be32(b, 5),
                                    begin: spec_read_be32(b, 9),
                                    block: b.subrange(13, 4 + length),
                                },
                                4 + length,
                            ),
                        ),
                    )
                } else {
                    Err(WireError::BadLength)
                }
            } else if id == 8 {
                if length == 13 {
                    Ok(
                        Some(
                            (
                                MessageView::Cancel {
                                    index: spec_read_be32(b, 5),
                                    begin: spec_read_be32(b, 9),
                                    length: spec_read_be32(b, 13),
                                },
                                4 + length,
                            ),
                        ),
                    )
                } else {
                    Err(WireError::BadLength)
                }
            } else {
                Err(WireError::UnknownId)
            }
        }
    }
}

/// What decoding a buffer as the one-time 68-byte handshake frame yields:
/// `Ok(None)` until 68 bytes are buffered, then the handshake, checked to
/// open with the protocol literal.
pub open spec fn spec_decode_handshake(b: Seq<u8>) -> Result<Option<(Seq<u8>, Seq<u8>, int)>,
    WireError,
> {
    if b.len() < 68 {
        Ok(None)
    } else if !is_handshake_prefix(b.take(20)) {
        Err(WireError::BadHandshake)
    } else {
        Ok(Some((b.subrange(28, 48), b.subrange(48, 68), 68)))
    }
}


/// Byte `i` of the handshake prefix.
fn prefix_byte(i: usize) -> (r: u8)
    requires
        i < 20,
    ensures
        r == handshake_prefix()[i as int],
{
    if i == 0 {
        0x13
    } else if i == 1 {
        0x42
    } else if i == 2 {
        0x69
    } else if i == 3 {
        0x74
    } else if i == 4 {
        0x54
    } else if i == 5 {
        0x6f
    } else if i == 6 {
        0x72
    } else if i == 7 {
        0x72
    } else if i == 8 {
        0x65
    } else if i == 9 {
        0x6e
    } else if i == 10 {
        0x74
    } else if i == 11 {
        0x20
    } else if i == 12 {
        0x70
    } else if i == 13 {
        0x72
    } else if i == 14 {
        0x6f
    } else if i == 15 {
        0x74
    } else if i == 16 {
        0x6f
    } else if i == 17 {
        0x63
    } else if i == 18 {
        0x6f
    } else {
        0x6c
    }
}

/// Whether the buffer agrees with the handshake prefix as far as it goes.
#[verifier::loop_isolation(false)]
fn handshake_prefix_match(src: &[u8]) -> (r: bool)
    ensures
        r == is_handshake_prefix(src@),
{
    let n = if src.len() < 20 {
        src.len()
    } else {
        20
    };
    let mut i: usize = 0;
    while i < n
        invariant
            0 <= i <= n,
            forall|k: int| 0 <= k < i ==> src@[k] == handshake_prefix()[k],
        decreases n - i,
    {
        if src[i] != prefix_byte(i) {
            assert(!is_handshake_prefix(src@)) by {
                assert(src@[i as int] != handshake_prefix()[i as int]);
            }
            return false;
        }
        i = i + 1;
    }
    true
}

/// Read the 32-bit big-endian number at `pos`.
fn read_be32(bytes: &[u8], pos: usize) -> (r: u32)
    requires
        pos + 4 <= bytes@.len(),
    ensures
        r == spec_read_be32(bytes@, pos as int),
{
    ((bytes[pos] as u32) << 24) | ((bytes[pos + 1] as u32) << 16) | ((bytes[pos + 2] as u32) << 8)
        | (bytes[pos + 3] as u32)
}

/// Append a 32-bit number in big-endian byte order.
fn push_be32(out: &mut Vec<u8>, n: u32)
    ensures
        final(out)@ == old(out)@ + spec_be32(n),
{
    out.push((n >> 24) as u8);
    out.push(((n >> 16) & 0xff) as u8);
    out.push(((n >> 8) & 0xff) as u8);
    out.push((n & 0xff) as u8);
    proof {
        assert(out@ =~= old(out)@ + spec_be32(n));
    }
}

/// The 20 bytes at `pos` as a fixed array.
pub(crate) fn read_arr20(bytes: &[u8], pos: usize) -> (r: [u8; 20])
    requires
        pos + 20 <= bytes@.len(),
    ensures
        r@ == bytes@.subrange(pos as int, pos as int + 20),
{
    let r = [
        bytes[pos],
        bytes[pos + 1],
        bytes[pos + 2],
        bytes[pos + 3],
        bytes[pos + 4],
        bytes[pos + 5],
        bytes[pos + 6],
        bytes[pos + 7],
        bytes[pos + 8],
        bytes[pos + 9],
        bytes[pos + 10],
        bytes[pos + 11],
        bytes[pos + 12],
        bytes[pos + 13],
        bytes[pos + 14],
        bytes[pos + 15],
        bytes[pos + 16],
        bytes[pos + 17],
        bytes[pos + 18],
        bytes[pos + 19],
    ];
    proof {
        assert(r@ =~= bytes@.subrange(pos as int, pos as int + 20));
    }
    r
}

/// The bytes `start .. end` as a fresh vector.
#[verifier::loop_isolation(false)]
fn copy_range(bytes: &[u8], start: usize, end: usize) -> (r: Vec<u8>)
    requires
        start <= end <= bytes@.len(),
    ensures
        r@ == bytes@.subrange(start as int, end as int),
{
    let mut out: Vec<u8> = Vec::new();
    let mut i: usize = start;
    while i < end
        invariant
            start <= i <= end,
            out@ == bytes@.subrange(start as int, i as int),
        decreases end - i,
    {
        out.push(bytes[i]);
        proof {
            assert(out@ =~= bytes@.subrange(start as int, i + 1 as int));
        }
        i = i + 1;
    }
    out
}

/// The incremental decoder and encoder for all peer-wire frames, the
/// handshake included.
pub struct MessageCodec;

impl MessageCodec {
    pub fn new() -> MessageCodec {
        MessageCodec
    }

    /// One decoding step on a stream buffer: take one whole frame off its
    /// front if one is buffered, report that more bytes are needed otherwise
    /// (consuming nothing), or reject a malformed frame (consuming nothing;
    /// the connection is then torn down).
    pub fn decode(&self, src: &mut Vec<u8>) -> (r: Result<Option<Message>, WireError>)
        ensures
            (match r {
                Ok(m) => match m {
                    Some(m) => spec_decode_frame(old(src)@) matches Ok(Some(t)) && t.0 == m@
                        && final(src)@ == old(src)@.skip(t.1),
                    None => spec_decode_frame(old(src)@) == Ok::<
                        Option<(MessageView, int)>,
                        WireError,
                    >(None) && final(src)@ == old(src)@,
                },
                Err(e) => spec_decode_frame(old(src)@) == Err::<
                    Option<(MessageView, int)>,
                    WireError,
                >(e) && final(src)@ == old(src)@,
            }),
    {
        if handshake_prefix_match(src.as_slice()) {
            if src.len() < 68 {
                return Ok(None);
            }
            let info_hash = read_arr20(src.as_slice(), 28);
            let peer_id = read_arr20(src.as_slice(), 48);
            crate::bencode::drain_front(src, 68);
            return Ok(Some(Message::Handshake(Handshake { info_hash, peer_id })));
        }
        if src.len() < 4 {
            return Ok(None);
        }
        let length32 = read_be32(src.as_slice(), 0);
        let length = length32 as usize;
        if src.len() - 4 < length {
            return Ok(None);
        }
        if length < 1 {
            return Err(WireError::BadLength);
        }
        let id = src[4];
        if id == 0 {
            if length == 1 {
                crate::bencode::drain_front(src, 4 + length);
                Ok(Some(Message::Choke))
            } else {
                Err(WireError::BadLength)
            }
        } else if id == 1 {
            if length == 1 {
                crate::bencode::drain_front(src, 4 + length);
                Ok(Some(Message::Unchoke))
            } else {
                Err(WireError::BadLength)
            }
        } else if id == 2 {
            if length == 1 {
                crate::bencode::drain_front(src, 4 + length);
                Ok(Some(Message::Interested))
            } else {
                Err(WireError::BadLength)
            }
        } else if id == 3 {
            if length == 1 {
                crate::bencode::drain_front(src, 4 + length);
                Ok(Some(Message::NotInterested))
            } else {
                Err(WireError::BadLength)
            }
        } else if id == 4 {
            if length == 5 {
                let n = read_be32(src.as_slice(), 5);
                crate::bencode::drain_front(src, 4 + length);
                Ok(Some(Message::Have(n)))
            } else {
                Err(WireError::BadLength)
            }
        } else if id == 5 {
            let payload = copy_range(src.as_slice(), 5, 4 + length);
            let bv = bitvec_from_bytes(payload.as_slice());
            crate::bencode::drain_front(src, 4 + length);
            Ok(Some(Message::Bitfield(bv)))
        } else if id == 6 {
            if length == 13 {
                let index = read_be32(src.as_slice(), 5);
                let begin = read_be32(src.as_slice(), 9);
                let len = read_be32(src.as_slice(), 13);
                crate::bencode::drain_front(src, 4 + length);
                Ok(Some(Message::Request(Request { index, begin, length: len })))
            } else {
                Err(WireError::BadLength)
            }
        } else if id == 7 {
            if length >= 9 {
                let index = read_be32(src.as_slice(), 5);
                let begin = read_be32(src.as_slice(), 9);
                let block = copy_range(src.as_slice(), 13, 4 + length);
                crate::bencode::drain_front(src, 4 + length);
                Ok(Some(Message::Piece(Piece { index, begin, block })))
            } else {
                Err(WireError::BadLength)
            }
        } else if id == 8 {
            if length == 13 {
                let index = read_be32(src.as_slice(), 5);
                let begin = read_be32(src.as_slice(), 9);
                let len = read_be32(src.as_slice(), 13);
                crate::bencode::drain_front(src, 4 + length);
                Ok(Some(Message::Cancel(Request { index, begin, length: len })))
            } else {
                Err(WireError::BadLength)
            }
        } else {
            Err(WireError::UnknownId)
        }
    }

    /// Append the wire bytes of a message.  Fails, appending nothing, only
    /// on a payload too large for the 32-bit length prefix.
    pub fn encode(&self, item: &Message, dst: &mut Vec<u8>) -> (r: Result<(), WireError>)
        ensures
            (match r {
                Ok(u) => frame_fits(item@) && final(dst)@ == old(dst)@ + spec_encode_frame(item@),
                Err(e) => e == WireError::BadLength && !frame_fits(item@) && final(dst)@ == old(
                    dst,
                )@,
            }),
    {
        match item {
            Message::Handshake(h) => {
                push_handshake(h, dst);
                Ok(())
            },
            Message::Choke => {
                push_be32(dst, 1);
                dst.push(0);
                proof {
                    assert(dst@ =~= old(dst)@ + spec_encode_frame(item@));
                }
                Ok(())
            },
            Message::Unchoke => {
                push_be32(dst, 1);
                dst.push(1);
                proof {
                    assert(dst@ =~= old(dst)@ + spec_encode_frame(item@));
                }
                Ok(())
            },
            Message::Interested => {
                push_be32(dst, 1);
                dst.push(2);
                proof {
                    assert(dst@ =~= old(dst)@ + spec_encode_frame(item@));
                }
                Ok(())
            },
            Message::NotInterested => {
                push_be32(dst, 1);
                dst.push(3);
                proof {
                    assert(dst@ =~= old(dst)@ + spec_encode_frame(item@));
                }
                Ok(())
            },
            Message::Have(n) => {
                push_be32(dst, 5);
                dst.push(4);
                push_be32(dst, *n);
                proof {
                    assert(dst@ =~= old(dst)@ + spec_encode_frame(item@));
                }
                Ok(())
            },
            Message::Bitfield(bv) => {
                let mut bytes = bitvec_to_bytes(bv);
                if bytes.len() > (u32::MAX - 1) as usize {
                    return Err(WireError::BadLength);
                }
                push_be32(dst, 1 + bytes.len() as u32);
                dst.push(5);
                let ghost bv_bytes = bytes@;
                dst.append(&mut bytes);
                proof {
                    assert(dst@ =~= old(dst)@ + spec_encode_frame(item@));
                }
                Ok(())
            },
            Message::Request(rq) => {
                push_be32(dst, 13);
                dst.push(6);
                push_be32(dst, rq.index);
                push_be32(dst, rq.begin);
                push_be32(dst, rq.length);
                proof {
                    assert(dst@ =~= old(dst)@ + spec_encode_frame(item@));
                }
                Ok(())
            },
            Message::Piece(p) => {
                if p.block.len() > (u32::MAX - 9) as usize {
                    return Err(WireError::BadLength);
                }
                push_be32(dst, 9 + p.block.len() as u32);
                dst.push(7);
                push_be32(dst, p.index);
                push_be32(dst, p.begin);
                let mut blk = crate::bencode::clone_bytes(p.block.as_slice());
                dst.append(&mut blk);
                proof {
                    assert(dst@ =~= old(dst)@ + spec_encode_frame(item@));
                }
                Ok(())
            },
            Message::Cancel(rq) => {
                push_be32(dst, 13);
                dst.push(8);
                push_be32(dst, rq.index);
                push_be32(dst, rq.begin);
                push_be32(dst, rq.length);
                proof {
                    assert(dst@ =~= old(dst)@ + spec_encode_frame(item@));
                }
                Ok(())
            },
        }
    }
}

/// Append the fixed 68-byte handshake frame.
#[verifier::loop_isolation(false)]
fn push_handshake(h: &Handshake, dst: &mut Vec<u8>)
    ensures
        final(dst)@ == old(dst)@ + spec_encode_frame(
            MessageView::Handshake { info_hash: h.info_hash@, peer_id: h.peer_id@ },
        ),
{
    let mut i: usize = 0;
    while i < 20
        invariant
            0 <= i <= 20,
            dst@ == old(dst)@ + handshake_prefix().take(i as int),
        decreases 20 - i,
    {
        dst.push(prefix_byte(i));
        proof {
            assert(dst@ =~= old(dst)@ + handshake_prefix().take(i + 1 as int));
        }
        i = i + 1;
    }
    proof {
        assert(handshake_prefix().take(20) =~= handshake_prefix());
    }
    let mut j: usize = 0;
    while j < 8
        invariant
            0 <= j <= 8,
            dst@ == old(dst)@ + handshake_prefix() + Seq::new(j as nat, |k: int| 0u8),
        decreases 8 - j,
    {
        dst.push(0);
        proof {
            assert(dst@ =~= old(dst)@ + handshake_prefix() + Seq::new((j + 1) as nat, |k: int| 0u8));
        }
        j = j + 1;
    }
    let mut k: usize = 0;
    while k < 20
        invariant
            0 <= k <= 20,
            dst@ == old(dst)@ + handshake_prefix() + Seq::new(8, |x: int| 0u8) + h.info_hash@.take(
                k as int,
            ),
        decreases 20 - k,
    {
        dst.push(h.info_hash[k]);
        proof {
            assert(dst@ =~= old(dst)@ + handshake_prefix() + Seq::new(8, |x: int| 0u8)
                + h.info_hash@.take(k + 1 as int));
        }
        k = k + 1;
    }
    proof {
        assert(h.info_hash@.take(20) =~= h.info_hash@);
    }
    let mut m: usize = 0;
    while m < 20
        invariant
            0 <= m <= 20,
            dst@ == old(dst)@ + handshake_prefix() + Seq::new(8, |x: int| 0u8) + h.info_hash@
                + h.peer_id@.take(m as int),
        decreases 20 - m,
    {
        dst.push(h.peer_id[m]);
        proof {
            assert(dst@ =~= old(dst)@ + handshake_prefix() + Seq::new(8, |x: int| 0u8)
                + h.info_hash@ + h.peer_id@.take(m + 1 as int));
        }
        m = m + 1;
    }
    proof {
        assert(h.peer_id@.take(20) =~= h.peer_id@);
    }
}

/// The decoder and encoder for the handshake frame alone, for the phase of a
/// connection before any other message is legal.
pub struct HandshakeCodec;

impl HandshakeCodec {
    pub fn new() -> HandshakeCodec {
        HandshakeCodec
    }

    /// One decoding step: take the 68-byte handshake off the buffer's front
    /// once it is whole, reporting that more bytes are needed until then and
    /// rejecting a frame that does not open with the protocol literal.
    pub fn decode(&self, src: &mut Vec<u8>) -> (r: Result<Option<Handshake>, WireError>)
        ensures
            (match r {
                Ok(m) => match m {
                    Some(h) => spec_decode_handshake(old(src)@) matches Ok(Some(t)) && t.0
                        == h.info_hash@ && t.1 == h.peer_id@ && final(src)@ == old(src)@.skip(t.2),
                    None => spec_decode_handshake(old(src)@) == Ok::<
                        Option<(Seq<u8>, Seq<u8>, int)>,
                        WireError,
                    >(None) && final(src)@ == old(src)@,
                },
                Err(e) => spec_decode_handshake(old(src)@) == Err::<
                    Option<(Seq<u8>, Seq<u8>, int)>,
                    WireError,
                >(e) && final(src)@ == old(src)@,
            }),
    {
        if src.len() < 68 {
            return Ok(None);
        }
        let head = copy_range(src.as_slice(), 0, 20);
        if !handshake_prefix_match(head.as_slice()) {
            proof {
                assert(head@ == src@.take(20));
            }
            return Err(WireError::BadHandshake);
        }
        proof {
            assert(head@ == src@.take(20));
        }
        let info_hash = read_arr20(src.as_slice(), 28);
        let peer_id = read_arr20(src.as_slice(), 48);
        crate::bencode::drain_front(src, 68);
        Ok(Some(Handshake { info_hash, peer_id }))
    }

    /// Append the fixed 68-byte handshake frame.
    pub fn encode(&self, item: &Handshake, dst: &mut Vec<u8>)
        ensures
            final(dst)@ == old(dst)@ + spec_encode_frame(
                MessageView::Handshake { info_hash: item.info_hash@, peer_id: item.peer_id@ },
            ),
    {
        push_handshake(item, dst);
    }
}


impl Message {
    /// How many bits a `Bitfield` message advertises.
    pub fn bitfield_len(&self) -> (r: Option<usize>)
        ensures
            (match self {
                Message::Bitfield(bv) => r matches Some(n) && n == bits_of(*bv).len(),
                _ => r is None,
            }),
    {
        match self {
            Message::Bitfield(bv) => Some(bitvec_len(bv)),
            _ => None,
        }
    }
}

/// Law: incremental framing.  Any proper prefix of a buffer whose front
/// decodes to a frame decodes to "more bytes needed", so a frame split at an
/// arbitrary byte boundary yields nothing (and consumes nothing) until the
/// remainder arrives, and then yields the frame's message.
pub proof fn lemma_incremental_framing(b: Seq<u8>, k: int)
    requires
        0 <= k,
        spec_decode_frame(b) matches Ok(ot) && ot matches Some(t) && k < t.1,
    ensures
        spec_decode_frame(b.take(k)) == Ok::<Option<(MessageView, int)>, WireError>(None),
{
    let p = b.take(k);
    assert(forall|i: int| 0 <= i < p.len() ==> p[i] == b[i]);
    if is_handshake_prefix(b) {
        assert(is_handshake_prefix(p));
        assert(p.len() < 68);
    } else {
        if is_handshake_prefix(p) {
            if p.len() >= 20 {
                assert(is_handshake_prefix(b)) by {
                    assert(forall|i: int| 0 <= i < 20 ==> b[i] == p[i]);
                }
                assert(false);
            }
            assert(p.len() < 68);
        } else {
            if p.len() >= 4 {
                assert(spec_read_be32(p, 0) == spec_read_be32(b, 0)) by {
                    assert(p[0] == b[0] && p[1] == b[1] && p[2] == b[2] && p[3] == b[3]);
                }
            }
        }
    }
}

/// Law: handshake discrimination.  A buffer of 68 or more bytes that opens
/// with byte 19 and the protocol-name literal always decodes as a handshake,
/// even where its bytes could also be read as a length-prefixed frame.
pub proof fn lemma_handshake_discrimination(b: Seq<u8>)
    requires
        b.len() >= 68,
        is_handshake_prefix(b),
    ensures
        spec_decode_frame(b) == Ok::<Option<(MessageView, int)>, WireError>(
            Some(
                (
                    MessageView::Handshake {
                        info_hash: b.subrange(28, 48),
                        peer_id: b.subrange(48, 68),
                    },
                    68,
                ),
            ),
        ),
{
}


/// Reading back four big-endian bytes yields the number they were written
/// from.
proof fn lemma_be32_read(n: u32, b: Seq<u8>, pos: int)
    requires
        0 <= pos,
        pos + 4 <= b.len(),
        b[pos] == spec_be32(n)[0],
        b[pos + 1] == spec_be32(n)[1],
        b[pos + 2] == spec_be32(n)[2],
        b[pos + 3] == spec_be32(n)[3],
    ensures
        spec_read_be32(b, pos) == n,
{
    assert((((((n >> 24) as u8) as u32) << 24) | (((((n >> 16) & 0xff) as u8) as u32) << 16) | ((((
    (n >> 8) & 0xff) as u8) as u32) << 8) | (((n & 0xff) as u8) as u32)) == n) by (bit_vector);
}

/// Unpacking the byte that packs bits `8*i .. 8*i + 8` reads each bit back.
proof fn lemma_pack_unpack(bits: Seq<bool>, i: int, k: int)
    requires
        0 <= k < 8,
        0 <= i,
        8 * i + k < bits.len(),
    ensures
        byte_bit(byte_of_bits(bits, i), k) == bits[8 * i + k],
{
    let b0: u8 = if 8 * i < bits.len() && bits[8 * i] {
        1
    } else {
        0
    };
    let b1: u8 = if 8 * i + 1 < bits.len() && bits[8 * i + 1] {
        1
    } else {
        0
    };
    let b2: u8 = if 8 * i + 2 < bits.len() && bits[8 * i + 2] {
        1
    } else {
        0
    };
    let b3: u8 = if 8 * i + 3 < bits.len() && bits[8 * i + 3] {
        1
    } else {
        0
    };
    let b4: u8 = if 8 * i + 4 < bits.len() && bits[8 * i + 4] {
        1
    } else {
        0
    };
    let b5: u8 = if 8 * i + 5 < bits.len() && bits[8 * i + 5] {
        1
    } else {
        0
    };
    let b6: u8 = if 8 * i + 6 < bits.len() && bits[8 * i + 6] {
        1
    } else {
        0
    };
    let b7: u8 = if 8 * i + 7 < bits.len() && bits[8 * i + 7] {
        1
    } else {
        0
    };
    let byte = byte_of_bits(bits, i);
    assert(byte == (b0 * 128 + b1 * 64 + b2 * 32 + b3 * 16 + b4 * 8 + b5 * 4 + b6 * 2
        + b7) as u8);
    let kk = k as u32;
    assert(byte == b0 * 128 + b1 * 64 + b2 * 32 + b3 * 16 + b4 * 8 + b5 * 4 + b6 * 2 + b7);
    assert((((byte as u32) >> ((7 - kk) as u32)) & 1 == 1) == (if kk == 0 {
        b0 == 1
    } else if kk == 1 {
        b1 == 1
    } else if kk == 2 {
        b2 == 1
    } else if kk == 3 {
        b3 == 1
    } else if kk == 4 {
        b4 == 1
    } else if kk == 5 {
        b5 == 1
    } else if kk == 6 {
        b6 == 1
    } else {
        b7 == 1
    })) by (bit_vector)
        requires
            kk < 8,
            b0 <= 1 && b1 <= 1 && b2 <= 1 && b3 <= 1 && b4 <= 1 && b5 <= 1 && b6 <= 1 && b7 <= 1,
            byte == b0 * 128 + b1 * 64 + b2 * 32 + b3 * 16 + b4 * 8 + b5 * 4 + b6 * 2 + b7,
    ;
}

/// A whole number of bytes' worth of bits survives packing and unpacking.
proof fn lemma_bits_round_trip(bits: Seq<bool>)
    requires
        bits.len() % 8 == 0,
    ensures
        spec_bits_of_bytes(spec_bytes_of_bits(bits)) == bits,
{
    let bytes = spec_bytes_of_bits(bits);
    assert(bytes.len() * 8 == bits.len());
    assert forall|j: int| 0 <= j < bits.len() implies spec_bits_of_bytes(bytes)[j] == bits[j] by {
        lemma_pack_unpack(bits, j / 8, j % 8);
        assert(8 * (j / 8) + j % 8 == j);
        assert(bytes[j / 8] == byte_of_bits(bits, j / 8));
    }
    assert(spec_bits_of_bytes(bytes) =~= bits);
}

/// A message small enough that its length prefix opens with a zero byte: the
/// type id and payload fit 24 bits (over 16 million bytes; real frames are
/// far smaller), handshake fields are their fixed 20 bytes, and a bitfield is
/// a whole number of bytes, as every decoded bitfield is.
pub open spec fn frame_small(m: MessageView) -> bool {
    match m {
        MessageView::Handshake { info_hash, peer_id } => info_hash.len() == 20 && peer_id.len()
            == 20,
        MessageView::Bitfield(bits) => bits.len() % 8 == 0 && 1 + spec_bytes_of_bits(bits).len()
            < 0x1000000,
        MessageView::Piece { index, begin, block } => 9 + block.len() < 0x1000000,
        _ => true,
    }
}

/// Law: decoding inverts frame encoding.  The wire bytes of any ordinarily
/// sized message, followed by anything, decode back to exactly that message,
/// consuming exactly its frame.
pub proof fn lemma_frame_round_trip(m: MessageView, rest: Seq<u8>)
    ensures
        frame_small(m) ==> spec_decode_frame(spec_encode_frame(m) + rest) == Ok::<
            Option<(MessageView, int)>,
            WireError,
        >(Some((m, spec_encode_frame(m).len() as int))),
{
    if !frame_small(m) {
        return ;
    }
    let enc = spec_encode_frame(m);
    let b = enc + rest;
    match m {
        MessageView::Handshake { info_hash, peer_id } => {
            assert(is_handshake_prefix(b)) by {
                assert(forall|i: int|
                    0 <= i < 20 ==> b[i] == handshake_prefix()[i]);
            }
            assert(b.subrange(28, 48) =~= info_hash);
            assert(b.subrange(48, 68) =~= peer_id);
        },
        _ => {
            let length: u32 = match m {
                MessageView::Bitfield(bits) => (1 + spec_bytes_of_bits(bits).len()) as u32,
                MessageView::Piece { index, begin, block } => (9 + block.len()) as u32,
                MessageView::Have(_) => 5,
                MessageView::Request { .. } => 13,
                MessageView::Cancel { .. } => 13,
                _ => 1,
            };
            assert(b[0] == (length >> 24) as u8);
            assert((length >> 24) as u8 == 0) by (bit_vector)
                requires
                    length < 0x1000000,
            ;
            assert(!is_handshake_prefix(b)) by {
                assert(b[0] != handshake_prefix()[0]);
            }
            lemma_be32_read(length, b, 0);
            assert(b.len() >= 4 + length);
            match m {
                MessageView::Have(n) => {
                    lemma_be32_read(n, b, 5);
                },
                MessageView::Bitfield(bits) => {
                    assert(b.subrange(5, 4 + length as int) =~= spec_bytes_of_bits(bits));
                    lemma_bits_round_trip(bits);
                },
                MessageView::Request { index, begin, length: l } => {
                    lemma_be32_read(index, b, 5);
                    lemma_be32_read(begin, b, 9);
                    lemma_be32_read(l, b, 13);
                },
                MessageView::Cancel { index, begin, length: l } => {
                    lemma_be32_read(index, b, 5);
                    lemma_be32_read(begin, b, 9);
                    lemma_be32_read(l, b, 13);
                },
                MessageView::Piece { index, begin, block } => {
                    lemma_be32_read(index, b, 5);
                    lemma_be32_read(begin, b, 9);
                    assert(b.subrange(13, 4 + length as int) =~= block);
                },
                _ => {},
            }
        },
    }
}

} // verus!

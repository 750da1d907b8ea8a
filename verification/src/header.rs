use vstd::prelude::*;

use crate::error::ProtocolError;

verus! {

/// Largest number of bytes a fragment occupies on the wire, header included.
pub const MAX_PACKET_SIZE: usize = 16 * 1024;

/// Size of the fixed fragment header.
pub const HEADER_SIZE: usize = 17;

/// Largest payload a single fragment carries.
pub const MAX_PAYLOAD_SIZE: usize = MAX_PACKET_SIZE - HEADER_SIZE;

/// Header flag: the reassembled payload is a zlib stream.
pub const FLAG_COMPRESSED: u8 = 0x01;

/// The high byte of a 16-bit value.
pub open spec fn hi8(x: u16) -> u8 {
    (x >> 8u16) as u8
}

/// The low byte of a 16-bit value.
pub open spec fn lo8(x: u16) -> u8 {
    (x & 0xffu16) as u8
}

/// The 16-bit value whose big-endian bytes are `b0`, `b1`.
pub open spec fn be16(b0: u8, b1: u8) -> u16 {
    ((b0 as u16) << 8u16) | (b1 as u16)
}

/// Byte `i` (0 is the most significant) of the big-endian form of `x`.
pub open spec fn byte64(x: u64, i: int) -> u8 {
    ((x >> ((7 - i) * 8) as u64) & 0xffu64) as u8
}

/// The big-endian bytes of a 64-bit value.
pub open spec fn be64_bytes(x: u64) -> Seq<u8> {
    seq![
        byte64(x, 0), byte64(x, 1), byte64(x, 2), byte64(x, 3),
        byte64(x, 4), byte64(x, 5), byte64(x, 6), byte64(x, 7),
    ]
}

/// The 64-bit value whose big-endian bytes are the eight bytes of `b` from `start`.
pub open spec fn be64_at(b: Seq<u8>, start: int) -> u64 {
    ((b[start] as u64) << 56u64) | ((b[start + 1] as u64) << 48u64) | ((b[start + 2] as u64)
        << 40u64) | ((b[start + 3] as u64) << 32u64) | ((b[start + 4] as u64) << 24u64) | ((b[
    start + 5] as u64) << 16u64) | ((b[start + 6] as u64) << 8u64) | (b[start + 7] as u64)
}

/// The fixed header that precedes each fragment on the wire.
///
/// Layout (big-endian): magic (2 bytes), flags (1), message id (8),
/// fragment index (2), total fragments (2), payload length (2).
#[derive(Debug, Clone, Copy, PartialEq, Eq, Structural)]
pub struct FragmentHeader {
    pub magic: u16,
    pub flags: u8,
    pub message_id: u64,
    pub fragment_index: u16,
    pub total_fragments: u16,
    pub payload_len: u16,
}

/// The 17 bytes that encode `h`.
pub open spec fn header_bytes(h: FragmentHeader) -> Seq<u8> {
    seq![hi8(h.magic), lo8(h.magic), h.flags] + be64_bytes(h.message_id) + seq![
        hi8(h.fragment_index),
        lo8(h.fragment_index),
        hi8(h.total_fragments),
        lo8(h.total_fragments),
        hi8(h.payload_len),
        lo8(h.payload_len),
    ]
}

/// The header whose fields are read from the 17 bytes `b`, magic included.
pub open spec fn header_fields(b: Seq<u8>) -> FragmentHeader {
    FragmentHeader {
        magic: be16(b[0], b[1]),
        flags: b[2],
        message_id: be64_at(b, 3),
        fragment_index: be16(b[11], b[12]),
        total_fragments: be16(b[13], b[14]),
        payload_len: be16(b[15], b[16]),
    }
}

/// What decoding `b` against the expected magic number yields.
pub open spec fn decode_result(b: Seq<u8>, expected_magic: u16) -> Result<
    FragmentHeader,
    ProtocolError,
> {
    if be16(b[0], b[1]) != expected_magic {
        Err(ProtocolError::InvalidMagic { found: be16(b[0], b[1]), expected: expected_magic })
    } else {
        Ok(header_fields(b))
    }
}

proof fn lemma_u16_split(x: u16)
    ensures
        be16(hi8(x), lo8(x)) == x,
{
    assert((((x >> 8u16) as u8) as u16) << 8u16 | (((x & 0xffu16) as u8) as u16) == x)
        by (bit_vector);
}

proof fn lemma_u16_join(b0: u8, b1: u8)
    ensures
        hi8(be16(b0, b1)) == b0,
        lo8(be16(b0, b1)) == b1,
{
    assert((((((b0 as u16) << 8u16) | (b1 as u16)) >> 8u16) as u8) == b0) by (bit_vector);
    assert((((((b0 as u16) << 8u16) | (b1 as u16)) & 0xffu16) as u8) == b1) by (bit_vector);
}

proof fn lemma_u64_split(x: u64)
    ensures
        be64_at(be64_bytes(x), 0) == x,
{
    let b = be64_bytes(x);
    assert(b[0] == ((x >> 56u64) & 0xffu64) as u8);
    assert(b[1] == ((x >> 48u64) & 0xffu64) as u8);
    assert(b[2] == ((x >> 40u64) & 0xffu64) as u8);
    assert(b[3] == ((x >> 32u64) & 0xffu64) as u8);
    assert(b[4] == ((x >> 24u64) & 0xffu64) as u8);
    assert(b[5] == ((x >> 16u64) & 0xffu64) as u8);
    assert(b[6] == ((x >> 8u64) & 0xffu64) as u8);
    assert(b[7] == ((x >> 0u64) & 0xffu64) as u8);
    assert(((((x >> 56u64) & 0xffu64) as u8) as u64) << 56u64 | ((((x >> 48u64) & 0xffu64) as u8) as u64)
        << 48u64 | ((((x >> 40u64) & 0xffu64) as u8) as u64) << 40u64 | ((((x >> 32u64)
        & 0xffu64) as u8) as u64) << 32u64 | ((((x >> 24u64) & 0xffu64) as u8) as u64) << 24u64
        | ((((x >> 16u64) & 0xffu64) as u8) as u64) << 16u64 | ((((x >> 8u64) & 0xffu64) as u8) as u64)
        << 8u64 | ((((x >> 0u64) & 0xffu64) as u8) as u64) == x) by (bit_vector);
}

proof fn lemma_u64_join(b: Seq<u8>, start: int)
    requires
        0 <= start,
        start + 8 <= b.len(),
    ensures
        be64_bytes(be64_at(b, start)) == b.subrange(start, start + 8),
{
    let (b0, b1, b2, b3, b4, b5, b6, b7) = (
        b[start],
        b[start + 1],
        b[start + 2],
        b[start + 3],
        b[start + 4],
        b[start + 5],
        b[start + 6],
        b[start + 7],
    );
    let x = be64_at(b, start);
    assert(x == ((b0 as u64) << 56u64) | ((b1 as u64) << 48u64) | ((b2 as u64) << 40u64) | ((
    b3 as u64) << 32u64) | ((b4 as u64) << 24u64) | ((b5 as u64) << 16u64) | ((b6 as u64)
        << 8u64) | (b7 as u64));
    assert({
        let y = ((b0 as u64) << 56u64) | ((b1 as u64) << 48u64) | ((b2 as u64) << 40u64) | ((
        b3 as u64) << 32u64) | ((b4 as u64) << 24u64) | ((b5 as u64) << 16u64) | ((b6 as u64)
            << 8u64) | (b7 as u64);
        &&& ((y >> 56u64) & 0xffu64) as u8 == b0
        &&& ((y >> 48u64) & 0xffu64) as u8 == b1
        &&& ((y >> 40u64) & 0xffu64) as u8 == b2
        &&& ((y >> 32u64) & 0xffu64) as u8 == b3
        &&& ((y >> 24u64) & 0xffu64) as u8 == b4
        &&& ((y >> 16u64) & 0xffu64) as u8 == b5
        &&& ((y >> 8u64) & 0xffu64) as u8 == b6
        &&& ((y >> 0u64) & 0xffu64) as u8 == b7
    }) by (bit_vector);
    assert(be64_bytes(x) =~= b.subrange(start, start + 8));
}

/// Decoding the encoding of a header, against its own magic number,
/// gives the header back.
pub proof fn lemma_decode_encode(h: FragmentHeader)
    ensures
        header_bytes(h).len() == HEADER_SIZE,
        decode_result(header_bytes(h), h.magic) == Ok::<FragmentHeader, ProtocolError>(h),
{
    let b = header_bytes(h);
    lemma_u16_split(h.magic);
    lemma_u16_split(h.fragment_index);
    lemma_u16_split(h.total_fragments);
    lemma_u16_split(h.payload_len);
    lemma_u64_split(h.message_id);
    assert(b.subrange(3, 11) =~= be64_bytes(h.message_id));
    assert(be64_at(b, 3) == be64_at(b.subrange(3, 11), 0));
    assert(header_fields(b) == h);
}

/// Encoding the header read from 17 bytes gives those bytes back.
pub proof fn lemma_encode_decode(b: Seq<u8>)
    requires
        b.len() == HEADER_SIZE,
    ensures
        header_bytes(header_fields(b)) == b,
{
    let h = header_fields(b);
    lemma_u16_join(b[0], b[1]);
    lemma_u16_join(b[11], b[12]);
    lemma_u16_join(b[13], b[14]);
    lemma_u16_join(b[15], b[16]);
    lemma_u64_join(b, 3);
    assert(header_bytes(h) =~= b);
}

proof fn lemma_u16_digits(x: u16)
    ensures
        hi8(x) == x / 256,
        lo8(x) == x % 256,
{
    assert(((x >> 8u16) as u8) as u16 == x / 256u16) by (bit_vector);
    assert(((x & 0xffu16) as u8) as u16 == x % 256u16) by (bit_vector);
}

proof fn lemma_u16_value(b0: u8, b1: u8)
    ensures
        be16(b0, b1) == b0 * 256 + b1,
{
    assert(((b0 as u16) << 8u16) | (b1 as u16) == (b0 as u16) * 256u16 + (b1 as u16))
        by (bit_vector);
}

/// The wire layout of a header, field by field: the magic number in bytes
/// 0 and 1, the flags in byte 2, the message id in bytes 3 to 10, the
/// fragment index in bytes 11 and 12, the total fragment count in bytes
/// 13 and 14 and the payload length in bytes 15 and 16, each big-endian
/// (most significant byte first).
pub proof fn lemma_header_layout(h: FragmentHeader)
    ensures
        ({
            let b = header_bytes(h);
            &&& b.len() == HEADER_SIZE
            &&& b[0] == h.magic / 256
            &&& b[1] == h.magic % 256
            &&& b[2] == h.flags
            &&& b[3] == h.message_id / 0x100_0000_0000_0000 % 256
            &&& b[4] == h.message_id / 0x1_0000_0000_0000 % 256
            &&& b[5] == h.message_id / 0x100_0000_0000 % 256
            &&& b[6] == h.message_id / 0x1_0000_0000 % 256
            &&& b[7] == h.message_id / 0x100_0000 % 256
            &&& b[8] == h.message_id / 0x1_0000 % 256
            &&& b[9] == h.message_id / 0x100 % 256
            &&& b[10] == h.message_id % 256
            &&& b[11] == h.fragment_index / 256
            &&& b[12] == h.fragment_index % 256
            &&& b[13] == h.total_fragments / 256
            &&& b[14] == h.total_fragments % 256
            &&& b[15] == h.payload_len / 256
            &&& b[16] == h.payload_len % 256
        }),
{
    let x = h.message_id;
    lemma_u16_digits(h.magic);
    lemma_u16_digits(h.fragment_index);
    lemma_u16_digits(h.total_fragments);
    lemma_u16_digits(h.payload_len);
    let b = header_bytes(h);
    assert(b[3] == ((x >> 56u64) & 0xffu64) as u8);
    assert(b[4] == ((x >> 48u64) & 0xffu64) as u8);
    assert(b[5] == ((x >> 40u64) & 0xffu64) as u8);
    assert(b[6] == ((x >> 32u64) & 0xffu64) as u8);
    assert(b[7] == ((x >> 24u64) & 0xffu64) as u8);
    assert(b[8] == ((x >> 16u64) & 0xffu64) as u8);
    assert(b[9] == ((x >> 8u64) & 0xffu64) as u8);
    assert(b[10] == ((x >> 0u64) & 0xffu64) as u8);
    assert({
        &&& ((x >> 56u64) & 0xffu64) as u8 as u64 == x / 0x100_0000_0000_0000u64 % 256u64
        &&& ((x >> 48u64) & 0xffu64) as u8 as u64 == x / 0x1_0000_0000_0000u64 % 256u64
        &&& ((x >> 40u64) & 0xffu64) as u8 as u64 == x / 0x100_0000_0000u64 % 256u64
        &&& ((x >> 32u64) & 0xffu64) as u8 as u64 == x / 0x1_0000_0000u64 % 256u64
        &&& ((x >> 24u64) & 0xffu64) as u8 as u64 == x / 0x100_0000u64 % 256u64
        &&& ((x >> 16u64) & 0xffu64) as u8 as u64 == x / 0x1_0000u64 % 256u64
        &&& ((x >> 8u64) & 0xffu64) as u8 as u64 == x / 0x100u64 % 256u64
        &&& ((x >> 0u64) & 0xffu64) as u8 as u64 == x % 256u64
    }) by (bit_vector);
}

/// Reading a header is checking bytes 0 and 1, big-endian, against the
/// expected magic number, and then reading every field big-endian from
/// its place: flags from byte 2, the message id from bytes 3 to 10, the
/// fragment index from 11 and 12, the total fragment count from 13 and 14
/// and the payload length from 15 and 16.
pub proof fn lemma_decode_layout(b: Seq<u8>, expected_magic: u16)
    requires
        b.len() == HEADER_SIZE,
    ensures
        decode_result(b, expected_magic) is Err <==> b[0] * 256 + b[1] != expected_magic,
        decode_result(b, expected_magic) matches Ok(h) ==> {
            &&& h.magic == b[0] * 256 + b[1]
            &&& h.flags == b[2]
            &&& h.message_id == b[3] * 0x100_0000_0000_0000 + b[4] * 0x1_0000_0000_0000 + b[5]
                * 0x100_0000_0000 + b[6] * 0x1_0000_0000 + b[7] * 0x100_0000 + b[8] * 0x1_0000
                + b[9] * 0x100 + b[10]
            &&& h.fragment_index == b[11] * 256 + b[12]
            &&& h.total_fragments == b[13] * 256 + b[14]
            &&& h.payload_len == b[15] * 256 + b[16]
        },
{
    lemma_u16_value(b[0], b[1]);
    lemma_u16_value(b[11], b[12]);
    lemma_u16_value(b[13], b[14]);
    lemma_u16_value(b[15], b[16]);
    let (b3, b4, b5, b6, b7, b8, b9, b10) = (b[3], b[4], b[5], b[6], b[7], b[8], b[9], b[10]);
    assert(((b3 as u64) << 56u64) | ((b4 as u64) << 48u64) | ((b5 as u64) << 40u64) | ((b6 as u64)
        << 32u64) | ((b7 as u64) << 24u64) | ((b8 as u64) << 16u64) | ((b9 as u64) << 8u64) | (
    b10 as u64) == (b3 as u64) * 0x100_0000_0000_0000u64 + (b4 as u64) * 0x1_0000_0000_0000u64
        + (b5 as u64) * 0x100_0000_0000u64 + (b6 as u64) * 0x1_0000_0000u64 + (b7 as u64)
        * 0x100_0000u64 + (b8 as u64) * 0x1_0000u64 + (b9 as u64) * 0x100u64 + (b10 as u64))
        by (bit_vector);
}

impl FragmentHeader {
    /// The 17 wire bytes of this header.
    pub fn encode(&self) -> (buf: [u8; HEADER_SIZE])
        ensures
            buf@ == header_bytes(*self),
            buf@[13] == self.total_fragments / 256,
            buf@[14] == self.total_fragments % 256,
            buf@[15] == self.payload_len / 256,
            buf@[16] == self.payload_len % 256,
            buf@[11] == self.fragment_index / 256,
            buf@[12] == self.fragment_index % 256,
            buf@[0] == self.magic / 256,
            buf@[1] == self.magic % 256,
            buf@[2] == self.flags,
    {
        proof {
            lemma_header_layout(*self);
        }
        let m = self.message_id;
        let buf: [u8; HEADER_SIZE] = [
            (self.magic >> 8u16) as u8,
            (self.magic & 0xffu16) as u8,
            self.flags,
            ((m >> 56u64) & 0xffu64) as u8,
            ((m >> 48u64) & 0xffu64) as u8,
            ((m >> 40u64) & 0xffu64) as u8,
            ((m >> 32u64) & 0xffu64) as u8,
            ((m >> 24u64) & 0xffu64) as u8,
            ((m >> 16u64) & 0xffu64) as u8,
            ((m >> 8u64) & 0xffu64) as u8,
            (m & 0xffu64) as u8,
            (self.fragment_index >> 8u16) as u8,
            (self.fragment_index & 0xffu16) as u8,
            (self.total_fragments >> 8u16) as u8,
            (self.total_fragments & 0xffu16) as u8,
            (self.payload_len >> 8u16) as u8,
            (self.payload_len & 0xffu16) as u8,
        ];
        assert(m & 0xffu64 == (m >> 0u64) & 0xffu64) by (bit_vector);
        assert(buf@ =~= header_bytes(*self));
        buf
    }

    /// Reads a header from its 17 wire bytes. The magic number must equal
    /// `expected_magic`, the process-wide signature that every header of
    /// this protocol starts with.
    pub fn decode(buf: &[u8; HEADER_SIZE], expected_magic: u16) -> (r: Result<
        FragmentHeader,
        ProtocolError,
    >)
        ensures
            r == decode_result(buf@, expected_magic),
            r is Err <==> buf@[0] * 256 + buf@[1] != expected_magic,
            r matches Ok(h) ==> {
                &&& h.magic == buf@[0] * 256 + buf@[1]
                &&& h.flags == buf@[2]
                &&& h.fragment_index == buf@[11] * 256 + buf@[12]
                &&& h.total_fragments == buf@[13] * 256 + buf@[14]
                &&& h.payload_len == buf@[15] * 256 + buf@[16]
            },
    {
        proof {
            lemma_decode_layout(buf@, expected_magic);
        }
        let magic = ((buf[0] as u16) << 8u16) | (buf[1] as u16);
        if magic != expected_magic {
            return Err(ProtocolError::InvalidMagic { found: magic, expected: expected_magic });
        }
        let message_id = ((buf[3] as u64) << 56u64) | ((buf[4] as u64) << 48u64) | ((
        buf[5] as u64) << 40u64) | ((buf[6] as u64) << 32u64) | ((buf[7] as u64) << 24u64) | ((
        buf[8] as u64) << 16u64) | ((buf[9] as u64) << 8u64) | (buf[10] as u64);
        Ok(
            FragmentHeader {
                magic,
                flags: buf[2],
                message_id,
                fragment_index: ((buf[11] as u16) << 8u16) | (buf[12] as u16),
                total_fragments: ((buf[13] as u16) << 8u16) | (buf[14] as u16),
                payload_len: ((buf[15] as u16) << 8u16) | (buf[16] as u16),
            },
        )
    }
}

} // verus!

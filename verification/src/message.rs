use vstd::prelude::*;

use crate::checksum::{crc32, crc32_of};
use crate::compress::{zlib_compress, zlib_compressed, zlib_decompressed};
use crate::error::ProtocolError;

verus! {

/// Byte `i` (0 is the most significant) of the big-endian form of `x`.
pub open spec fn byte32(x: u32, i: int) -> u8 {
    ((x >> ((3 - i) * 8) as u32) & 0xffu32) as u8
}

/// The big-endian bytes of a 32-bit value.
pub open spec fn be32_bytes(x: u32) -> Seq<u8> {
    seq![byte32(x, 0), byte32(x, 1), byte32(x, 2), byte32(x, 3)]
}

/// The 32-bit value whose big-endian bytes are the first four of `b`.
pub open spec fn be32_first(b: Seq<u8>) -> u32 {
    ((b[0] as u32) << 24u32) | ((b[1] as u32) << 16u32) | ((b[2] as u32) << 8u32) | (b[3] as u32)
}

/// Reading back the big-endian bytes of a value gives the value.
pub proof fn lemma_be32_roundtrip(x: u32)
    ensures
        be32_first(be32_bytes(x)) == x,
        be32_bytes(x).len() == 4,
{
    let b = be32_bytes(x);
    assert(b[0] == ((x >> 24u32) & 0xffu32) as u8);
    assert(b[1] == ((x >> 16u32) & 0xffu32) as u8);
    assert(b[2] == ((x >> 8u32) & 0xffu32) as u8);
    assert(b[3] == ((x >> 0u32) & 0xffu32) as u8);
    assert(((((x >> 24u32) & 0xffu32) as u8) as u32) << 24u32 | ((((x >> 16u32) & 0xffu32) as u8)
        as u32) << 16u32 | ((((x >> 8u32) & 0xffu32) as u8) as u32) << 8u32 | ((((x >> 0u32)
        & 0xffu32) as u8) as u32) == x) by (bit_vector);
}

/// A message's bytes behind the big-endian CRC-32 of those bytes.
pub open spec fn with_crc(data: Seq<u8>) -> Seq<u8> {
    be32_bytes(crc32_of(data)) + data
}

/// The payload to send, and whether it is compressed, given the
/// CRC-prefixed message and what the encoder made of it: the compressed
/// stream is taken only where it is strictly shorter.
pub open spec fn pick_payload(plain: Seq<u8>, compressed: Option<Seq<u8>>) -> Result<
    (Seq<u8>, bool),
    ProtocolError,
> {
    match compressed {
        None => Err(ProtocolError::CompressionFailed),
        Some(c) => if c.len() < plain.len() {
            Ok((c, true))
        } else {
            Ok((plain, false))
        },
    }
}

/// The payload that carries `data`, and whether it is compressed.
pub open spec fn sealed(data: Seq<u8>, compress: bool, level: u32) -> Result<
    (Seq<u8>, bool),
    ProtocolError,
> {
    if compress {
        pick_payload(with_crc(data), zlib_compressed(with_crc(data), level))
    } else {
        Ok((with_crc(data), false))
    }
}

/// Payload `p`, compressed or not as `c` says, carries `data`: decoding
/// it (where compressed) gives back `data` behind its CRC.
pub open spec fn carries(p: Seq<u8>, c: bool, data: Seq<u8>) -> bool {
    if c {
        zlib_decompressed(p) == Some(with_crc(data))
    } else {
        p == with_crc(data)
    }
}

/// Sealing never makes a payload longer than the CRC-prefixed message, and
/// compression is only kept where it makes it strictly shorter.
pub proof fn lemma_sealed_size(data: Seq<u8>, compress: bool, level: u32)
    ensures
        sealed(data, compress, level) matches Ok((p, c)) ==> {
            &&& p.len() <= data.len() + 4
            &&& c ==> compress && p.len() < data.len() + 4
        },
{
}

/// The bytes of a sealing result, by view.
pub open spec fn sealed_view(r: Result<(Vec<u8>, bool), ProtocolError>) -> Result<
    (Seq<u8>, bool),
    ProtocolError,
> {
    match r {
        Ok((v, c)) => Ok((v@, c)),
        Err(e) => Err(e),
    }
}

/// Appends `src` to `dst`.
pub fn append_bytes(dst: &mut Vec<u8>, src: &[u8])
    ensures
        final(dst)@ == old(dst)@ + src@,
{
    let mut i: usize = 0;
    while i < src.len()
        invariant
            i <= src@.len(),
            dst@ == old(dst)@ + src@.take(i as int),
        decreases src@.len() - i,
    {
        dst.push(src[i]);
        i = i + 1;
        assert(src@.take(i as int) =~= src@.take(i - 1).push(src@[i - 1]));
        assert(dst@ =~= old(dst)@ + src@.take(i as int));
    }
    assert(src@.take(i as int) =~= src@);
}

/// `data` behind the big-endian bytes of `crc`.
pub fn prefix_crc(crc: u32, data: &[u8]) -> (out: Vec<u8>)
    ensures
        out@ == be32_bytes(crc) + data@,
{
    let mut out: Vec<u8> = Vec::new();
    out.push(((crc >> 24u32) & 0xffu32) as u8);
    out.push(((crc >> 16u32) & 0xffu32) as u8);
    out.push(((crc >> 8u32) & 0xffu32) as u8);
    out.push((crc & 0xffu32) as u8);
    assert(crc & 0xffu32 == (crc >> 0u32) & 0xffu32) by (bit_vector);
    assert(out@ =~= be32_bytes(crc));
    append_bytes(&mut out, data);
    out
}

/// Picks the payload to send out of the CRC-prefixed message `plain` and
/// the encoder's output for it (`None` where the encoder failed).
pub fn choose_payload(plain: Vec<u8>, compressed: Option<Vec<u8>>) -> (r: Result<
    (Vec<u8>, bool),
    ProtocolError,
>)
    ensures
        sealed_view(r) == pick_payload(
            plain@,
            match compressed {
                Some(c) => Some(c@),
                None => None,
            },
        ),
        compressed is None ==> r == Err::<(Vec<u8>, bool), ProtocolError>(
            ProtocolError::CompressionFailed,
        ),
        compressed matches Some(c) ==> (r matches Ok((p, f)) && if c@.len() < plain@.len() {
            p@ == c@ && f
        } else {
            p@ == plain@ && !f
        }),
{
    match compressed {
        None => Err(ProtocolError::CompressionFailed),
        Some(c) => {
            if c.len() < plain.len() {
                Ok((c, true))
            } else {
                Ok((plain, false))
            }
        },
    }
}

/// The payload that carries `data`: its CRC-32, big-endian, then the data,
/// zlib-compressed at `level` where asked for and where that makes it
/// shorter. The flag tells whether the payload is compressed.
pub fn seal_payload(data: &[u8], compress: bool, level: u32) -> (r: Result<
    (Vec<u8>, bool),
    ProtocolError,
>)
    requires
        compress ==> level <= 10,
    ensures
        sealed_view(r) == sealed(data@, compress, level),
        sealed(data@, compress, level) matches Ok((p, c)) ==> carries(p, c, data@),
{
    let crc = crc32(data);
    let plain = prefix_crc(crc, data);
    if compress {
        let compressed = zlib_compress(plain.as_slice(), level);
        choose_payload(plain, compressed)
    } else {
        Ok((plain, false))
    }
}

/// What a reassembled payload yields once its CRC prefix is checked
/// against the CRC `computed` of the bytes behind it.
pub open spec fn crc_checked(assembled: Seq<u8>, computed: u32) -> Result<Seq<u8>, ProtocolError> {
    if assembled.len() < 4 {
        Err(ProtocolError::MissingCrc)
    } else if be32_first(assembled) != computed {
        Err(ProtocolError::CrcMismatch { carried: be32_first(assembled), computed })
    } else {
        Ok(assembled.skip(4))
    }
}

/// What a reassembled (and decompressed) payload yields: the message
/// behind the CRC prefix, where the prefix matches.
pub open spec fn opened(assembled: Seq<u8>) -> Result<Seq<u8>, ProtocolError> {
    if assembled.len() < 4 {
        Err(ProtocolError::MissingCrc)
    } else {
        crc_checked(assembled, crc32_of(assembled.skip(4)))
    }
}

/// Checks the CRC prefix of a reassembled payload against `computed`, the
/// CRC-32 of its bytes after the first four, and returns those bytes.
pub fn check_crc(assembled: &[u8], computed: u32) -> (r: Result<Vec<u8>, ProtocolError>)
    ensures
        crate::assembler::bytes_result(r) == crc_checked(assembled@, computed),
{
    if assembled.len() < 4 {
        return Err(ProtocolError::MissingCrc);
    }
    let carried = ((assembled[0] as u32) << 24u32) | ((assembled[1] as u32) << 16u32) | ((
    assembled[2] as u32) << 8u32) | (assembled[3] as u32);
    if carried != computed {
        return Err(ProtocolError::CrcMismatch { carried, computed });
    }
    let mut out: Vec<u8> = Vec::new();
    append_bytes(&mut out, vstd::slice::slice_subrange(assembled, 4, assembled.len()));
    assert(out@ =~= assembled@.skip(4));
    Ok(out)
}

/// The message carried by a reassembled payload: the bytes after the
/// 4-byte CRC prefix, where the prefix is their CRC-32.
pub fn open_payload(assembled: &[u8]) -> (r: Result<Vec<u8>, ProtocolError>)
    ensures
        crate::assembler::bytes_result(r) == opened(assembled@),
{
    if assembled.len() < 4 {
        return Err(ProtocolError::MissingCrc);
    }
    let rest = vstd::slice::slice_subrange(assembled, 4, assembled.len());
    assert(rest@ =~= assembled@.skip(4));
    let computed = crc32(rest);
    check_crc(assembled, computed)
}

/// Opening a payload sealed without compression gives the message back.
pub proof fn lemma_open_with_crc(data: Seq<u8>)
    ensures
        opened(with_crc(data)) == Ok::<Seq<u8>, ProtocolError>(data),
{
    lemma_be32_roundtrip(crc32_of(data));
    let w = with_crc(data);
    assert(w.skip(4) =~= data);
    assert(be32_first(w) == be32_first(be32_bytes(crc32_of(data))));
}

} // verus!

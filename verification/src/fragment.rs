use vstd::prelude::*;

use crate::error::ProtocolError;
use crate::header::{header_bytes, FragmentHeader, MAX_PAYLOAD_SIZE};
use crate::message::append_bytes;

verus! {

/// How many fragments a payload of `len` bytes is cut into: one for an
/// empty payload, else `len` divided by the fragment payload size,
/// rounded up.
pub open spec fn fragment_count(len: nat) -> nat {
    if len == 0 {
        1
    } else if len % (MAX_PAYLOAD_SIZE as nat) == 0 {
        len / (MAX_PAYLOAD_SIZE as nat)
    } else {
        len / (MAX_PAYLOAD_SIZE as nat) + 1
    }
}

/// Where fragment `i` of a payload of `len` bytes ends.
pub open spec fn chunk_end(len: nat, i: int) -> int {
    if (i + 1) * MAX_PAYLOAD_SIZE < len {
        (i + 1) * MAX_PAYLOAD_SIZE
    } else {
        len as int
    }
}

/// The bytes of fragment `i` of payload `p`.
pub open spec fn chunk(p: Seq<u8>, i: int) -> Seq<u8> {
    p.subrange(i * MAX_PAYLOAD_SIZE, chunk_end(p.len(), i))
}

/// The payloads of all fragments of `p`, in order.
pub open spec fn chunks(p: Seq<u8>) -> Seq<Seq<u8>> {
    Seq::new(fragment_count(p.len()), |i: int| chunk(p, i))
}

/// The header of fragment `i` of payload `p`.
pub open spec fn fragment_header(
    p: Seq<u8>,
    i: int,
    message_id: u64,
    magic: u16,
    flags: u8,
) -> FragmentHeader {
    FragmentHeader {
        magic,
        flags,
        message_id,
        fragment_index: i as u16,
        total_fragments: fragment_count(p.len()) as u16,
        payload_len: chunk(p, i).len() as u16,
    }
}

/// The wire bytes of fragment `i`: its header, then its payload.
pub open spec fn frame(p: Seq<u8>, i: int, message_id: u64, magic: u16, flags: u8) -> Seq<u8> {
    header_bytes(fragment_header(p, i, message_id, magic, flags)) + chunk(p, i)
}

/// The wire bytes of every fragment of payload `p`, in order.
pub open spec fn frames(p: Seq<u8>, message_id: u64, magic: u16, flags: u8) -> Seq<Seq<u8>> {
    Seq::new(fragment_count(p.len()), |i: int| frame(p, i, message_id, magic, flags))
}

/// What cutting payload `p` into frames yields, under a limit on the
/// payload size and one on the number of fragments.
pub open spec fn framed(
    p: Seq<u8>,
    message_id: u64,
    magic: u16,
    flags: u8,
    max_total_fragments: u16,
    size_limit: usize,
) -> Result<Seq<Seq<u8>>, ProtocolError> {
    if p.len() > size_limit {
        Err(ProtocolError::MessageTooLarge { size: p.len() as usize, max_size: size_limit })
    } else if fragment_count(p.len()) > max_total_fragments {
        Err(
            ProtocolError::FragmentLimit {
                needed: fragment_count(p.len()) as usize,
                limit: max_total_fragments,
            },
        )
    } else {
        Ok(frames(p, message_id, magic, flags))
    }
}

/// The byte sequences of a vector of byte vectors.
pub open spec fn frames_view(v: Seq<Vec<u8>>) -> Seq<Seq<u8>> {
    v.map_values(|f: Vec<u8>| f@)
}

/// The frames of a framing result, by view.
pub open spec fn framed_view(r: Result<Vec<Vec<u8>>, ProtocolError>) -> Result<
    Seq<Seq<u8>>,
    ProtocolError,
> {
    match r {
        Ok(v) => Ok(frames_view(v@)),
        Err(e) => Err(e),
    }
}

proof fn lemma_mul_step(i: int, j: int)
    requires
        i <= j,
    ensures
        (i + 1) * MAX_PAYLOAD_SIZE == i * MAX_PAYLOAD_SIZE + MAX_PAYLOAD_SIZE,
        i * MAX_PAYLOAD_SIZE <= j * MAX_PAYLOAD_SIZE,
{
    let m = MAX_PAYLOAD_SIZE as int;
    assert((i + 1) * m == i * m + m) by (nonlinear_arith);
    assert(i * m <= j * m) by (nonlinear_arith)
        requires
            i <= j,
            m >= 0,
    ;
}

pub proof fn lemma_count_facts(len: nat)
    ensures
        fragment_count(len) >= 1,
        (fragment_count(len) - 1) * MAX_PAYLOAD_SIZE < len || len == 0,
        len <= fragment_count(len) * MAX_PAYLOAD_SIZE,
{
    let m = MAX_PAYLOAD_SIZE as nat;
    assert(m == 16367);
    vstd::arithmetic::div_mod::lemma_fundamental_div_mod(len as int, m as int);
    if len > 0 {
        assert(len == m * (len / m) + len % m);
        assert(0 <= len % m < m);
    }
}

/// Every fragment but the last is full, the last holds the rest, and
/// none exceeds the fragment payload size.
pub proof fn lemma_chunk_bounds(p: Seq<u8>, i: int)
    requires
        0 <= i < fragment_count(p.len()),
    ensures
        i * MAX_PAYLOAD_SIZE <= chunk_end(p.len(), i) <= p.len(),
        chunk(p, i).len() <= MAX_PAYLOAD_SIZE,
        chunk(p, i).len() == chunk_end(p.len(), i) - i * MAX_PAYLOAD_SIZE,
{
    lemma_count_facts(p.len());
    lemma_mul_step(i, fragment_count(p.len()) - 1);
    if p.len() > 0 {
        assert((fragment_count(p.len()) - 1) * MAX_PAYLOAD_SIZE < p.len());
    } else {
        assert(fragment_count(p.len()) == 1);
        assert(i == 0);
    }
}

/// The first `k` fragments, concatenated, are the first bytes of the payload.
proof fn lemma_chunks_prefix(p: Seq<u8>, k: int)
    requires
        0 <= k <= fragment_count(p.len()),
    ensures
        chunks(p).take(k).flatten() == p.subrange(0, if k == 0 { 0 } else { chunk_end(p.len(), k - 1) }),
    decreases k,
{
    if k == 0 {
        assert(chunks(p).take(0) =~= Seq::<Seq<u8>>::empty());
        assert(p.subrange(0, 0) =~= Seq::<u8>::empty());
    } else {
        lemma_chunks_prefix(p, k - 1);
        lemma_chunk_bounds(p, k - 1);
        let prev_end = if k - 1 == 0 { 0 } else { chunk_end(p.len(), k - 2) };
        if k - 1 > 0 {
            lemma_chunk_bounds(p, k - 2);
            lemma_count_facts(p.len());
            assert(chunk_end(p.len(), k - 2) == (k - 1) * MAX_PAYLOAD_SIZE);
        }
        assert(prev_end == (k - 1) * MAX_PAYLOAD_SIZE);
        assert(chunks(p).take(k) =~= chunks(p).take(k - 1).push(chunk(p, k - 1)));
        chunks(p).take(k - 1).lemma_flatten_push(chunk(p, k - 1));
        assert(p.subrange(0, prev_end) + p.subrange(prev_end, chunk_end(p.len(), k - 1)) =~= p.subrange(
            0,
            chunk_end(p.len(), k - 1),
        ));
    }
}

/// Concatenating the fragments of a payload, in order, gives the payload.
pub proof fn lemma_chunks_flatten(p: Seq<u8>)
    ensures
        chunks(p).flatten() == p,
        chunks(p).len() == fragment_count(p.len()),
{
    let n = fragment_count(p.len());
    lemma_count_facts(p.len());
    lemma_chunks_prefix(p, n as int);
    lemma_chunk_bounds(p, n - 1);
    assert(chunks(p).take(n as int) =~= chunks(p));
    if p.len() > 0 {
        assert(chunk_end(p.len(), n - 1) == p.len());
    } else {
        assert(chunk_end(p.len(), n - 1) == 0);
    }
    assert(p.subrange(0, p.len() as int) =~= p);
}

/// Computes `fragment_count`.
pub fn count_fragments(len: usize) -> (n: usize)
    ensures
        n == fragment_count(len as nat),
{
    assert(len as int / 16367 <= len as int) by (nonlinear_arith)
        requires
            len >= 0,
    ;
    if len == 0 {
        1
    } else if len % MAX_PAYLOAD_SIZE == 0 {
        len / MAX_PAYLOAD_SIZE
    } else {
        len / MAX_PAYLOAD_SIZE + 1
    }
}

/// Cuts `payload` into the frames of message `message_id`: each a header
/// (with the process magic number and the flags given) followed by at
/// most `MAX_PAYLOAD_SIZE` bytes of the payload. Refused where the
/// payload exceeds `size_limit`, or would need more than
/// `max_total_fragments` fragments.
pub fn frame_payload(
    payload: &[u8],
    message_id: u64,
    magic: u16,
    flags: u8,
    max_total_fragments: u16,
    size_limit: usize,
) -> (r: Result<Vec<Vec<u8>>, ProtocolError>)
    ensures
        framed_view(r) == framed(payload@, message_id, magic, flags, max_total_fragments, size_limit),
{
    let total_len = payload.len();
    if total_len > size_limit {
        return Err(ProtocolError::MessageTooLarge { size: total_len, max_size: size_limit });
    }
    let n = count_fragments(total_len);
    if n > max_total_fragments as usize {
        return Err(ProtocolError::FragmentLimit { needed: n, limit: max_total_fragments });
    }
    let total_fragments = n as u16;
    let ghost p = payload@;
    let mut out: Vec<Vec<u8>> = Vec::new();
    let mut idx: usize = 0;
    while idx < n
        invariant
            n == fragment_count(p.len()),
            n <= max_total_fragments,
            total_fragments == n,
            p == payload@,
            total_len == p.len(),
            idx <= n,
            out@.len() == idx,
            forall|j: int|
                0 <= j < idx ==> (#[trigger] out@[j])@ == frame(p, j, message_id, magic, flags),
        decreases n - idx,
    {
        proof {
            lemma_chunk_bounds(p, idx as int);
        }
        let start = idx * MAX_PAYLOAD_SIZE;
        proof {
            lemma_mul_step(idx as int, idx as int);
        }
        let end = if total_len - start > MAX_PAYLOAD_SIZE {
            start + MAX_PAYLOAD_SIZE
        } else {
            total_len
        };
        let frag = vstd::slice::slice_subrange(payload, start, end);
        assert(frag@ == chunk(p, idx as int));
        let header = FragmentHeader {
            magic,
            flags,
            message_id,
            fragment_index: idx as u16,
            total_fragments,
            payload_len: (end - start) as u16,
        };
        assert(header == fragment_header(p, idx as int, message_id, magic, flags));
        let bytes = header.encode();
        let mut f: Vec<u8> = Vec::new();
        append_bytes(&mut f, vstd::array::array_as_slice(&bytes));
        append_bytes(&mut f, frag);
        out.push(f);
        idx = idx + 1;
    }
    assert(frames_view(out@) =~= frames(p, message_id, magic, flags));
    Ok(out)
}

} // verus!

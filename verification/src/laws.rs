use vstd::prelude::*;

use crate::assembler::AssemblerView;
use crate::error::ProtocolError;
use crate::fragment::{
    chunk, chunks, fragment_count, fragment_header, frame, framed, frames, lemma_chunk_bounds,
    lemma_chunks_flatten,
};
use crate::header::{
    header_bytes, lemma_decode_encode, FragmentHeader, FLAG_COMPRESSED, HEADER_SIZE,
    MAX_PACKET_SIZE, MAX_PAYLOAD_SIZE,
};
use crate::message::{carries, lemma_open_with_crc, sealed};
use crate::state::{
    accepted, created_times, flags_for, outgoing, unexpired_assemblers, unexpired_completed,
    StateView,
};
use crate::eviction::keeps_newest;
use crate::compress::zlib_compressed;
use crate::checksum::crc32_of;
use crate::message::{opened, with_crc};

verus! {

/// What the receiving side makes of one frame read from the stream: its
/// first 17 bytes are accepted as a header, the `payload_len` bytes behind
/// them are the fragment.
pub open spec fn receive_frame(s: StateView, f: Seq<u8>, now: u64) -> (
    StateView,
    Result<Option<Seq<u8>>, ProtocolError>,
) {
    match accepted(f.take(HEADER_SIZE as int), s.magic) {
        Err(e) => (s, Err(e)),
        Ok(h) => s.step(h, f.subrange(HEADER_SIZE as int, HEADER_SIZE + h.payload_len), now),
    }
}

/// The state after frames `fs` are received one after the other, frame
/// `i` at clock reading `nows[i]`, and what each yielded.
pub open spec fn receive_all(s: StateView, fs: Seq<Seq<u8>>, nows: Seq<u64>) -> (
    StateView,
    Seq<Result<Option<Seq<u8>>, ProtocolError>>,
)
    decreases fs.len(),
{
    if fs.len() == 0 {
        (s, Seq::empty())
    } else {
        let (s1, rs) = receive_all(s, fs.drop_last(), nows.drop_last());
        let (s2, r) = receive_frame(s1, fs.last(), nows.last());
        (s2, rs.push(r))
    }
}

/// No clock reading in `nows` lies more than `timeout` nanoseconds after
/// the first one.
pub open spec fn within_timeout(nows: Seq<u64>, timeout: u64) -> bool {
    forall|i: int| 0 <= i < nows.len() ==> #[trigger] nows[i] <= nows[0] + timeout
}

/// The assembler of message `id` after its first `k` fragments arrived.
spec fn partial(p: Seq<u8>, id: u64, compressed: bool, now: u64, k: int) -> AssemblerView {
    let n = fragment_count(p.len());
    AssemblerView {
        message_id: id,
        total_fragments: n as u16,
        fragments: Seq::new(n, |i: int| if i < k { chunk(p, i) } else { Seq::<u8>::empty() }),
        received: Seq::new(n, |i: int| i < k),
        received_count: k as nat,
        compressed,
        created_at: now,
    }
}

proof fn lemma_flags(c: bool)
    ensures
        (flags_for(c) & FLAG_COMPRESSED != 0) == c,
{
    assert(1u8 & 1u8 != 0) by (bit_vector);
    assert(0u8 & 1u8 == 0) by (bit_vector);
}

proof fn lemma_count_prefix(n: int, k: int)
    requires
        0 <= k <= n,
    ensures
        crate::assembler::count_received(Seq::new(n as nat, |i: int| i < k)) == k,
    decreases n,
{
    let r = Seq::new(n as nat, |i: int| i < k);
    if n > 0 {
        if k == n {
            lemma_count_prefix(n - 1, k - 1);
            assert(r.drop_last() =~= Seq::new((n - 1) as nat, |i: int| i < k - 1));
        } else {
            lemma_count_prefix(n - 1, k);
            assert(r.drop_last() =~= Seq::new((n - 1) as nat, |i: int| i < k));
        }
    }
}

/// Every frame of a message fits in one packet, starts with the header
/// that describes it, and carries its fragment right behind; accepting the
/// header against the sender's magic number gives that header back.
pub proof fn lemma_frame_parts(p: Seq<u8>, i: int, id: u64, magic: u16, flags: u8)
    requires
        0 <= i < fragment_count(p.len()),
        fragment_count(p.len()) <= u16::MAX,
    ensures
        ({
            let f = frame(p, i, id, magic, flags);
            let h = fragment_header(p, i, id, magic, flags);
            &&& f.len() <= MAX_PACKET_SIZE
            &&& h.fragment_index == i
            &&& h.total_fragments == fragment_count(p.len())
            &&& h.payload_len == chunk(p, i).len()
            &&& accepted(f.take(HEADER_SIZE as int), magic) == Ok::<FragmentHeader, ProtocolError>(h)
            &&& f.subrange(HEADER_SIZE as int, HEADER_SIZE + h.payload_len) == chunk(p, i)
        }),
{
    let f = frame(p, i, id, magic, flags);
    let h = fragment_header(p, i, id, magic, flags);
    lemma_chunk_bounds(p, i);
    lemma_decode_encode(h);
    assert(f.take(HEADER_SIZE as int) =~= header_bytes(h));
    assert(f.subrange(HEADER_SIZE as int, HEADER_SIZE + h.payload_len) =~= chunk(p, i));
}

proof fn lemma_receive_prefix(
    s: StateView,
    p: Seq<u8>,
    c: bool,
    id: u64,
    nows: Seq<u64>,
    k: int,
)
    requires
        !s.completed.contains_key(id),
        !s.assemblers.contains_key(id),
        fragment_count(p.len()) <= s.config.max_total_fragments,
        0 <= k < fragment_count(p.len()),
        nows.len() == fragment_count(p.len()),
        within_timeout(nows, s.config.assembler_timeout),
    ensures
        ({
            let fs = frames(p, id, s.magic, flags_for(c));
            let sk = if k == 0 {
                s
            } else {
                StateView { assemblers: s.assemblers.insert(id, partial(p, id, c, nows[0], k)), ..s }
            };
            receive_all(s, fs.take(k), nows.take(k)) == (sk, Seq::new(
                k as nat,
                |i: int| Ok::<Option<Seq<u8>>, ProtocolError>(None),
            ))
        }),
    decreases k,
{
    let fs = frames(p, id, s.magic, flags_for(c));
    let n = fragment_count(p.len());
    if k == 0 {
        assert(fs.take(0) =~= Seq::<Seq<u8>>::empty());
        assert(nows.take(0) =~= Seq::<u64>::empty());
        assert(Seq::new(0, |i: int| Ok::<Option<Seq<u8>>, ProtocolError>(None)) =~= Seq::<
            Result<Option<Seq<u8>>, ProtocolError>,
        >::empty());
    } else {
        lemma_receive_prefix(s, p, c, id, nows, k - 1);
        assert(nows.take(k).drop_last() =~= nows.take(k - 1));
        assert(nows.take(k).last() == nows[k - 1]);
        assert(nows[k - 1] <= nows[0] + s.config.assembler_timeout);
        assert(fs.take(k).drop_last() =~= fs.take(k - 1));
        let prev = if k - 1 == 0 {
            s
        } else {
            StateView { assemblers: s.assemblers.insert(id, partial(p, id, c, nows[0], k - 1)), ..s }
        };
        let h = fragment_header(p, k - 1, id, s.magic, flags_for(c));
        lemma_frame_parts(p, k - 1, id, s.magic, flags_for(c));
        lemma_flags(c);
        assert(fs.take(k).last() == fs[k - 1]);
        let a = prev.assembler_for(h, nows[k - 1]);
        assert(a == partial(p, id, c, nows[0], k - 1)) by {
            if k - 1 == 0 {
                assert(partial(p, id, c, nows[0], 0).fragments =~= Seq::new(
                    n,
                    |i: int| Seq::<u8>::empty(),
                ));
                assert(partial(p, id, c, nows[0], 0).received =~= Seq::new(n, |i: int| false));
            }
        }
        let a2 = a.after_fragment(h.fragment_index, chunk(p, k - 1));
        assert(a2 == partial(p, id, c, nows[0], k)) by {
            assert(a2.fragments =~= partial(p, id, c, nows[0], k).fragments);
            assert(a2.received =~= partial(p, id, c, nows[0], k).received);
        }
        assert(receive_frame(prev, fs[k - 1], nows[k - 1]).0 == StateView {
            assemblers: s.assemblers.insert(id, partial(p, id, c, nows[0], k)),
            ..s
        }) by {
            assert(prev.assemblers.insert(id, a2) =~= s.assemblers.insert(id, a2));
        }
        assert(Seq::new((k - 1) as nat, |i: int| Ok::<Option<Seq<u8>>, ProtocolError>(None)).push(
            Ok(None),
        ) =~= Seq::new(k as nat, |i: int| Ok::<Option<Seq<u8>>, ProtocolError>(None)));
    }
}

/// The assemblers that survive the timeout step of a cleanup are exactly
/// those whose creation lies no more than `timeout` before `now` (or after
/// it), unchanged.
pub proof fn lemma_unexpired_assemblers_exact(m: Map<u64, AssemblerView>, now: u64, timeout: u64)
    ensures
        forall|k: u64|
            #[trigger] unexpired_assemblers(m, now, timeout).contains_key(k) <==> (m.contains_key(k)
                && !(now > m[k].created_at && now - m[k].created_at > timeout)),
        forall|k: u64| #[trigger]
            unexpired_assemblers(m, now, timeout).contains_key(k) ==> unexpired_assemblers(
                m,
                now,
                timeout,
            )[k] == m[k],
{
}

/// The delivered ids that survive the timeout step of a cleanup are
/// exactly those delivered no more than `timeout` before `now` (or after
/// it), with their delivery times unchanged.
pub proof fn lemma_unexpired_completed_exact(m: Map<u64, u64>, now: u64, timeout: u64)
    ensures
        forall|k: u64|
            #[trigger] unexpired_completed(m, now, timeout).contains_key(k) <==> (m.contains_key(k)
                && !(now > m[k] && now - m[k] > timeout)),
        forall|k: u64| #[trigger]
            unexpired_completed(m, now, timeout).contains_key(k) ==> unexpired_completed(
                m,
                now,
                timeout,
            )[k] == m[k],
{
}

/// Eviction by creation time keeps the newest assemblers: every assembler
/// dropped was created no later than every one kept, nothing is dropped
/// unless more than `max` were there, and then exactly `max` stay.
pub proof fn lemma_evicts_oldest_assemblers(live: Map<u64, AssemblerView>, kept: Set<u64>, max: usize)
    requires
        live.dom().finite(),
        keeps_newest(created_times(live), kept, max),
    ensures
        kept.subset_of(live.dom()),
        forall|r: u64, k: u64|
            live.contains_key(r) && !#[trigger] kept.contains(r) && #[trigger] kept.contains(k)
                ==> live[r].created_at <= live[k].created_at,
        forall|r: u64| live.contains_key(r) && !#[trigger] kept.contains(r) ==> kept.len() == max,
{
    assert(created_times(live).dom() =~= live.dom());
}

/// Eviction of delivered ids keeps the most recently delivered: every id
/// dropped was delivered no later than every id kept, nothing is dropped
/// unless more than `max` were there, and then exactly `max` stay.
pub proof fn lemma_evicts_oldest_completed(live: Map<u64, u64>, kept: Set<u64>, max: usize)
    requires
        keeps_newest(live, kept, max),
    ensures
        kept.subset_of(live.dom()),
        forall|r: u64, k: u64|
            live.contains_key(r) && !#[trigger] kept.contains(r) && #[trigger] kept.contains(k)
                ==> live[r] <= live[k],
        forall|r: u64| live.contains_key(r) && !#[trigger] kept.contains(r) ==> kept.len() == max,
{
}

/// The CRC-prefixed form of a message: four bytes of its CRC-32,
/// most significant first, then the message itself.
pub proof fn lemma_with_crc_layout(data: Seq<u8>)
    ensures
        with_crc(data).len() == data.len() + 4,
        with_crc(data)[0] == crc32_of(data) / 0x100_0000,
        with_crc(data)[1] == crc32_of(data) / 0x1_0000 % 256,
        with_crc(data)[2] == crc32_of(data) / 0x100 % 256,
        with_crc(data)[3] == crc32_of(data) % 256,
        with_crc(data).skip(4) == data,
{
    let x = crc32_of(data);
    let w = with_crc(data);
    assert(w[0] == ((x >> 24u32) & 0xffu32) as u8);
    assert(w[1] == ((x >> 16u32) & 0xffu32) as u8);
    assert(w[2] == ((x >> 8u32) & 0xffu32) as u8);
    assert(w[3] == ((x >> 0u32) & 0xffu32) as u8);
    assert({
        &&& ((x >> 24u32) & 0xffu32) as u8 as u32 == x / 0x100_0000u32
        &&& ((x >> 16u32) & 0xffu32) as u8 as u32 == x / 0x1_0000u32 % 256u32
        &&& ((x >> 8u32) & 0xffu32) as u8 as u32 == x / 0x100u32 % 256u32
        &&& ((x >> 0u32) & 0xffu32) as u8 as u32 == x % 256u32
    }) by (bit_vector);
    assert(w.skip(4) =~= data);
}

/// How the payload of a message is chosen: without compression it is the
/// CRC-prefixed message, uncompressed; with compression it is the zlib
/// stream of the CRC-prefixed message, flagged as compressed, exactly when
/// that stream is strictly shorter, and the CRC-prefixed message otherwise;
/// an encoder failure is an error.
pub proof fn lemma_seal_choice(data: Seq<u8>, compress: bool, level: u32)
    ensures
        !compress ==> sealed(data, compress, level) == Ok::<(Seq<u8>, bool), ProtocolError>(
            (with_crc(data), false),
        ),
        compress ==> match zlib_compressed(with_crc(data), level) {
            None => sealed(data, compress, level) == Err::<(Seq<u8>, bool), ProtocolError>(
                ProtocolError::CompressionFailed,
            ),
            Some(z) => if z.len() < data.len() + 4 {
                sealed(data, compress, level) == Ok::<(Seq<u8>, bool), ProtocolError>((z, true))
            } else {
                sealed(data, compress, level) == Ok::<(Seq<u8>, bool), ProtocolError>(
                    (with_crc(data), false),
                )
            },
        },
{
    lemma_with_crc_layout(data);
}

/// How a payload is cut: one fragment for an empty payload, else as many
/// as it takes at `MAX_PAYLOAD_SIZE` bytes each; fragment `i` is the bytes
/// from `i * MAX_PAYLOAD_SIZE` on, every fragment but the last is full, and
/// the last is not empty unless the payload is.
pub proof fn lemma_fragment_sizes(p: Seq<u8>)
    ensures
        p.len() == 0 ==> fragment_count(p.len()) == 1,
        p.len() > 0 ==> (fragment_count(p.len()) - 1) * MAX_PAYLOAD_SIZE < p.len()
            <= fragment_count(p.len()) * MAX_PAYLOAD_SIZE,
        forall|i: int|
            0 <= i < fragment_count(p.len()) ==> #[trigger] chunk(p, i) == p.subrange(
                i * MAX_PAYLOAD_SIZE,
                i * MAX_PAYLOAD_SIZE + chunk(p, i).len(),
            ),
        forall|i: int|
            0 <= i < fragment_count(p.len()) - 1 ==> #[trigger] chunk(p, i).len()
                == MAX_PAYLOAD_SIZE,
        chunk(p, fragment_count(p.len()) - 1).len() == p.len() - (fragment_count(p.len()) - 1)
            * MAX_PAYLOAD_SIZE,
{
    let n = fragment_count(p.len());
    crate::fragment::lemma_count_facts(p.len());
    assert forall|i: int| 0 <= i < n implies #[trigger] chunk(p, i) == p.subrange(
        i * MAX_PAYLOAD_SIZE,
        i * MAX_PAYLOAD_SIZE + chunk(p, i).len(),
    ) by {
        lemma_chunk_bounds(p, i);
    }
    assert forall|i: int| 0 <= i < n - 1 implies #[trigger] chunk(p, i).len()
        == MAX_PAYLOAD_SIZE by {
        lemma_chunk_bounds(p, i);
        lemma_chunk_bounds(p, n - 1);
        assert((i + 1) * MAX_PAYLOAD_SIZE == i * MAX_PAYLOAD_SIZE + MAX_PAYLOAD_SIZE)
            by (nonlinear_arith);
        assert((i + 1) * MAX_PAYLOAD_SIZE <= (n - 1) * MAX_PAYLOAD_SIZE) by (nonlinear_arith)
            requires
                i + 1 <= n - 1,
        ;
    }
    lemma_chunk_bounds(p, n - 1);
    if p.len() > 0 {
        assert(n * MAX_PAYLOAD_SIZE == (n - 1) * MAX_PAYLOAD_SIZE + MAX_PAYLOAD_SIZE)
            by (nonlinear_arith);
    }
}

/// Checking a reassembled payload: it is refused when shorter than four
/// bytes; else it yields the bytes after the first four exactly when those
/// four, read big-endian, are the CRC-32 of the rest, and is refused with
/// both values otherwise.
pub proof fn lemma_opened_exact(b: Seq<u8>)
    ensures
        b.len() < 4 ==> opened(b) == Err::<Seq<u8>, ProtocolError>(ProtocolError::MissingCrc),
        b.len() >= 4 ==> {
            let carried = b[0] * 0x100_0000 + b[1] * 0x1_0000 + b[2] * 0x100 + b[3];
            &&& carried == crc32_of(b.skip(4)) ==> opened(b) == Ok::<Seq<u8>, ProtocolError>(
                b.skip(4),
            )
            &&& carried != crc32_of(b.skip(4)) ==> opened(b) == Err::<Seq<u8>, ProtocolError>(
                ProtocolError::CrcMismatch {
                    carried: carried as u32,
                    computed: crc32_of(b.skip(4)),
                },
            )
        },
{
    if b.len() >= 4 {
        let (b0, b1, b2, b3) = (b[0], b[1], b[2], b[3]);
        assert(((b0 as u32) << 24u32) | ((b1 as u32) << 16u32) | ((b2 as u32) << 8u32) | (b3 as u32)
            == (b0 as u32) * 0x100_0000u32 + (b1 as u32) * 0x1_0000u32 + (b2 as u32) * 0x100u32 + (
        b3 as u32)) by (bit_vector);
    }
}

/// The `k`-th message id handed out after `start` (ids wrap at `u64::MAX`).
pub open spec fn nth_id(start: u64, k: nat) -> u64
    decreases k,
{
    if k == 0 {
        start
    } else {
        crate::state::id_after(nth_id(start, (k - 1) as nat))
    }
}

/// Message ids do not repeat: the ids of fewer than 2^64 successive
/// messages are pairwise distinct.
pub proof fn lemma_ids_distinct(start: u64, i: nat, j: nat)
    requires
        i < j < 0x1_0000_0000_0000_0000,
    ensures
        nth_id(start, i) != nth_id(start, j),
{
    lemma_nth_id_value(start, i);
    lemma_nth_id_value(start, j);
}

proof fn lemma_nth_id_value(start: u64, k: nat)
    ensures
        nth_id(start, k) == (start + k) % 0x1_0000_0000_0000_0000,
    decreases k,
{
    if k > 0 {
        lemma_nth_id_value(start, (k - 1) as nat);
    }
}

/// Once a message is delivered, any further fragment of it (a duplicate or
/// a late copy) is ignored and leaves the state unchanged.
pub proof fn lemma_delivered_ignored(s: StateView, h: FragmentHeader, payload: Seq<u8>, now: u64)
    requires
        s.completed.contains_key(h.message_id),
    ensures
        s.step(h, payload, now) == (s, Ok::<Option<Seq<u8>>, ProtocolError>(None)),
{
}

/// A message goes through: when every frame of a payload that carries
/// `data` (compressed or not) is received in order by an endpoint of the
/// same magic number and limits, that knows nothing of the message id yet,
/// at clock readings none of which is more than the assembler timeout
/// after the first, each frame but the last yields nothing, the last
/// yields `data`, and the message id is then remembered as delivered at
/// the last reading.
pub proof fn lemma_message_roundtrip(
    s: StateView,
    data: Seq<u8>,
    p: Seq<u8>,
    c: bool,
    id: u64,
    nows: Seq<u64>,
)
    requires
        nows.len() == fragment_count(p.len()),
        within_timeout(nows, s.config.assembler_timeout),
        !s.completed.contains_key(id),
        !s.assemblers.contains_key(id),
        carries(p, c, data),
        framed(
            p,
            id,
            s.magic,
            flags_for(c),
            s.config.max_total_fragments,
            s.config.payload_limit(),
        ) is Ok,
    ensures
        ({
            let fs = frames(p, id, s.magic, flags_for(c));
            let (s2, rs) = receive_all(s, fs, nows);
            &&& rs.len() == fs.len()
            &&& forall|i: int| 0 <= i < rs.len() - 1 ==> rs[i] == Ok::<Option<Seq<u8>>, ProtocolError>(None)
            &&& rs.last() == Ok::<Option<Seq<u8>>, ProtocolError>(Some(data))
            &&& s2 == StateView { completed: s.completed.insert(id, nows.last()), ..s }
        }),
{
    let fs = frames(p, id, s.magic, flags_for(c));
    let n = fragment_count(p.len());
    crate::fragment::lemma_count_facts(p.len());
    let k = n - 1;
    lemma_receive_prefix(s, p, c, id, nows, k);
    assert(nows.take(n as int) =~= nows);
    assert(nows.take(n as int).drop_last() =~= nows.take(k));
    assert(nows[k] <= nows[0] + s.config.assembler_timeout);
    assert(fs.take(n as int) =~= fs);
    assert(fs.take(n as int).drop_last() =~= fs.take(k));
    let prev = if k == 0 {
        s
    } else {
        StateView { assemblers: s.assemblers.insert(id, partial(p, id, c, nows[0], k)), ..s }
    };
    let h = fragment_header(p, k, id, s.magic, flags_for(c));
    lemma_frame_parts(p, k, id, s.magic, flags_for(c));
    lemma_flags(c);
    let a = prev.assembler_for(h, nows[k]);
    assert(a == partial(p, id, c, nows[0], k)) by {
        if k == 0 {
            assert(partial(p, id, c, nows[0], 0).fragments =~= Seq::new(n, |i: int| Seq::<u8>::empty()));
            assert(partial(p, id, c, nows[0], 0).received =~= Seq::new(n, |i: int| false));
        }
    }
    let a2 = a.after_fragment(h.fragment_index, chunk(p, k));
    lemma_chunks_flatten(p);
    assert(a2.fragments =~= chunks(p));
    assert(a2.is_complete());
    assert(a2.contents() == p);
    lemma_open_with_crc(data);
    assert(prev.assemblers.remove(id) =~= s.assemblers);
    assert(Seq::new(k as nat, |i: int| Ok::<Option<Seq<u8>>, ProtocolError>(None)).push(
        Ok(Some(data)),
    ).last() == Ok::<Option<Seq<u8>>, ProtocolError>(Some(data)));
}

/// What one endpoint sends, the other receives: where `prepare_message`
/// turned `data` into frames (with a payload that carries `data`, as it
/// promises), an endpoint with the same magic number and limits that has
/// not seen the message id receives those frames in order, at clock
/// readings within the assembler timeout of the first, with nothing
/// delivered before the last and `data` delivered by the last.
pub proof fn lemma_sent_is_received(
    s: StateView,
    data: Seq<u8>,
    compress: bool,
    id: u64,
    nows: Seq<u64>,
)
    requires
        within_timeout(nows, s.config.assembler_timeout),
        outgoing(data, compress, id, s.magic, s.config) matches Ok(fs) ==> nows.len() == fs.len(),
        !s.completed.contains_key(id),
        !s.assemblers.contains_key(id),
        outgoing(data, compress, id, s.magic, s.config) is Ok,
        sealed(data, compress, s.config.compression_level) matches Ok((p, c)) ==> carries(
            p,
            c,
            data,
        ),
    ensures
        outgoing(data, compress, id, s.magic, s.config) matches Ok(fs) && ({
            let (s2, rs) = receive_all(s, fs, nows);
            &&& rs.len() == fs.len()
            &&& forall|i: int| 0 <= i < rs.len() - 1 ==> rs[i] == Ok::<Option<Seq<u8>>, ProtocolError>(None)
            &&& rs.last() == Ok::<Option<Seq<u8>>, ProtocolError>(Some(data))
            &&& s2 == StateView { completed: s.completed.insert(id, nows.last()), ..s }
        }),
{
    let (p, c) = sealed(data, compress, s.config.compression_level)->Ok_0;
    lemma_message_roundtrip(s, data, p, c, id, nows);
}

} // verus!

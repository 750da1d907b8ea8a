use std::collections::HashMap;
use vstd::prelude::*;

use crate::assembler::{AssemblerView, MessageAssembler};
use crate::config::ProtocolConfig;
use crate::error::ProtocolError;
use crate::eviction::{drop_expired_assemblers, drop_expired_times, evict_oldest, keeps_newest, keys_of};
use crate::fragment::{frame_payload, framed, framed_view};
use crate::header::{decode_result, FragmentHeader, FLAG_COMPRESSED, HEADER_SIZE, MAX_PAYLOAD_SIZE};
use crate::message::{carries, open_payload, opened, seal_payload, sealed};
use crate::random::random_u64;

verus! {

broadcast use vstd::std_specs::hash::group_hash_axioms;

/// The abstract state of a [`ProtocolState`].
pub struct StateView {
    /// Incomplete messages, by message id.
    pub assemblers: Map<u64, AssemblerView>,
    /// Ids of delivered messages, with the clock reading of their delivery.
    pub completed: Map<u64, u64>,
    /// The id the next message sent will carry.
    pub next_id: u64,
    pub config: ProtocolConfig,
    /// The magic number every header sent or accepted carries.
    pub magic: u16,
}

/// The id that follows `id` (wrapping at `u64::MAX`).
pub open spec fn id_after(id: u64) -> u64 {
    if id == u64::MAX {
        0
    } else {
        (id + 1) as u64
    }
}

/// The header flags of a payload that is, or is not, compressed.
pub open spec fn flags_for(compressed: bool) -> u8 {
    if compressed {
        FLAG_COMPRESSED
    } else {
        0
    }
}

/// Whether a header marks its message as compressed.
pub open spec fn is_compressed(h: FragmentHeader) -> bool {
    h.flags & FLAG_COMPRESSED != 0
}

/// The frames that carry `data` as message `id`, or why it cannot be sent.
pub open spec fn outgoing(
    data: Seq<u8>,
    compress: bool,
    id: u64,
    magic: u16,
    config: ProtocolConfig,
) -> Result<Seq<Seq<u8>>, ProtocolError> {
    match sealed(data, compress, config.compression_level) {
        Err(e) => Err(e),
        Ok((p, c)) => framed(
            p,
            id,
            magic,
            flags_for(c),
            config.max_total_fragments,
            config.payload_limit(),
        ),
    }
}

/// What accepting a header read from the stream yields: the decoded header,
/// unless its magic number is wrong or it announces an oversized payload.
pub open spec fn accepted(b: Seq<u8>, magic: u16) -> Result<FragmentHeader, ProtocolError> {
    match decode_result(b, magic) {
        Err(e) => Err(e),
        Ok(h) => if h.payload_len > MAX_PAYLOAD_SIZE {
            Err(ProtocolError::PayloadTooLarge { len: h.payload_len })
        } else {
            Ok(h)
        },
    }
}

/// The bytes of a delivery result, by view.
pub open spec fn delivered_view(r: Result<Option<Vec<u8>>, ProtocolError>) -> Result<
    Option<Seq<u8>>,
    ProtocolError,
> {
    match r {
        Ok(Some(v)) => Ok(Some(v@)),
        Ok(None) => Ok(None),
        Err(e) => Err(e),
    }
}

/// The entries of `m` that are still alive at `now`.
pub open spec fn unexpired_assemblers(m: Map<u64, AssemblerView>, now: u64, timeout: u64) -> Map<
    u64,
    AssemblerView,
> {
    m.restrict(Set::new(|k: u64| !m[k].expired_at(now, timeout)))
}

/// The delivered ids remembered less than `timeout` nanoseconds before `now`.
pub open spec fn unexpired_completed(m: Map<u64, u64>, now: u64, timeout: u64) -> Map<u64, u64> {
    m.restrict(Set::new(|k: u64| !(now > m[k] && now - m[k] > timeout)))
}

/// The creation times of assemblers.
pub open spec fn created_times(m: Map<u64, AssemblerView>) -> Map<u64, u64> {
    m.map_values(|a: AssemblerView| a.created_at)
}

impl StateView {
    /// The assembler that a fragment of message `h.message_id` goes to: the
    /// one already collecting it, else a fresh one made from `h` at `now`.
    pub open spec fn assembler_for(self, h: FragmentHeader, now: u64) -> AssemblerView {
        if self.assemblers.contains_key(h.message_id) {
            self.assemblers[h.message_id]
        } else {
            AssemblerView::fresh(h.message_id, h.total_fragments, is_compressed(h), now)
        }
    }

    /// The state after a fragment with header `h` and bytes `payload`
    /// arrives at clock reading `now`, and what the arrival yields: the
    /// message it completes, nothing yet, or why the message is refused.
    pub open spec fn step(self, h: FragmentHeader, payload: Seq<u8>, now: u64) -> (
        StateView,
        Result<Option<Seq<u8>>, ProtocolError>,
    ) {
        let id = h.message_id;
        if self.completed.contains_key(id) {
            (self, Ok(None))
        } else if h.total_fragments > self.config.max_total_fragments {
            (
                self,
                Err(
                    ProtocolError::TooManyFragments {
                        announced: h.total_fragments,
                        limit: self.config.max_total_fragments,
                    },
                ),
            )
        } else {
            let a = self.assembler_for(h, now);
            let without = StateView { assemblers: self.assemblers.remove(id), ..self };
            if a.expired_at(now, self.config.assembler_timeout) {
                (without, Err(ProtocolError::AssemblyTimeout { message_id: id }))
            } else {
                let a2 = a.after_fragment(h.fragment_index, payload);
                if !(h.fragment_index < a.total_fragments && !a.received[h.fragment_index as int]
                    && a2.is_complete()) {
                    (StateView { assemblers: self.assemblers.insert(id, a2), ..self }, Ok(None))
                } else {
                    match a2.assembled(self.config.payload_limit()) {
                        Err(e) => (without, Err(e)),
                        Ok(bytes) => {
                            let done = StateView {
                                completed: self.completed.insert(id, now),
                                ..without
                            };
                            match opened(bytes) {
                                Ok(data) => (done, Ok(Some(data))),
                                Err(e) => (done, Err(e)),
                            }
                        },
                    }
                }
            }
        }
    }

    /// Every assembler is well formed and filed under its own message id.
    pub open spec fn wf(self) -> bool {
        forall|k: u64|
            self.assemblers.contains_key(k) ==> {
                &&& (#[trigger] self.assemblers[k]).wf()
                &&& self.assemblers[k].message_id == k
            }
    }
}

/// The state of one protocol endpoint, apart from its stream: incomplete
/// messages, recently delivered ids, the next id to send, the
/// configuration and the process magic number.
pub struct ProtocolState {
    assemblers: HashMap<u64, MessageAssembler>,
    completed: HashMap<u64, u64>,
    next_id: u64,
    config: ProtocolConfig,
    magic: u16,
}

/// The abstract states of the assemblers of a map.
pub open spec fn views(m: Map<u64, MessageAssembler>) -> Map<u64, AssemblerView> {
    m.map_values(|a: MessageAssembler| a@)
}

impl View for ProtocolState {
    type V = StateView;

    closed spec fn view(&self) -> StateView {
        StateView {
            assemblers: views(self.assemblers@),
            completed: self.completed@,
            next_id: self.next_id,
            config: self.config,
            magic: self.magic,
        }
    }
}

impl ProtocolState {
    /// The state is well formed, always.
    #[verifier::type_invariant]
    pub open spec fn wf(&self) -> bool {
        self@.wf()
    }

    /// A fresh endpoint with the default configuration, whose first message
    /// id is drawn at random.
    pub fn new(magic: u16) -> (s: Self)
        ensures
            s@.assemblers == Map::<u64, AssemblerView>::empty(),
            s@.completed == Map::<u64, u64>::empty(),
            s@.config == ProtocolConfig::spec_default(6),
            s@.magic == magic,
    {
        let id = random_u64();
        Self::with_initial_id(magic, id)
    }

    /// A fresh endpoint with the default configuration, whose first message
    /// will carry id `next_id`.
    pub fn with_initial_id(magic: u16, next_id: u64) -> (s: Self)
        ensures
            s@ == (StateView {
                assemblers: Map::empty(),
                completed: Map::empty(),
                next_id,
                config: ProtocolConfig::spec_default(6),
                magic,
            }),
    {
        let s = ProtocolState {
            assemblers: HashMap::new(),
            completed: HashMap::new(),
            next_id,
            config: ProtocolConfig::default(),
            magic,
        };
        assert(s@.assemblers =~= Map::<u64, AssemblerView>::empty());
        s
    }

    /// The same endpoint under another configuration.
    pub fn with_config(self, config: ProtocolConfig) -> (s: Self)
        ensures
            s@ == (StateView { config, ..self@ }),
    {
        proof {
            use_type_invariant(&self);
        }
        ProtocolState { config, ..self }
    }

    /// The configuration in force.
    pub fn config(&self) -> (c: &ProtocolConfig)
        ensures
            *c == self@.config,
    {
        &self.config
    }

    /// The magic number of this endpoint.
    pub fn magic(&self) -> (m: u16)
        ensures
            m == self@.magic,
    {
        self.magic
    }

    /// The id the next message sent will carry.
    pub fn next_id(&self) -> (id: u64)
        ensures
            id == self@.next_id,
    {
        self.next_id
    }

    /// How many messages are waiting for fragments.
    pub fn pending_count(&self) -> (n: usize)
        ensures
            n == self@.assemblers.len(),
    {
        proof {
            assert(self@.assemblers.dom() =~= self.assemblers@.dom());
        }
        self.assemblers.len()
    }

    /// How many delivered ids are remembered.
    pub fn completed_count(&self) -> (n: usize)
        ensures
            n == self@.completed.len(),
    {
        self.completed.len()
    }

    /// Whether the id of a delivered message `id` is remembered.
    pub fn is_completed(&self, id: u64) -> (r: bool)
        ensures
            r == self@.completed.contains_key(id),
    {
        self.completed.contains_key(&id)
    }

    /// Turns `data` into the frames of the next message: CRC prefix,
    /// compression where asked for and worthwhile, fragmentation. The
    /// message id is used up whether or not the message can be sent.
    pub fn prepare_message(&mut self, data: &[u8], compress: bool) -> (r: Result<
        Vec<Vec<u8>>,
        ProtocolError,
    >)
        requires
            compress ==> old(self)@.config.compression_level <= 10,
        ensures
            final(self)@ == (StateView { next_id: id_after(old(self)@.next_id), ..old(self)@ }),
            framed_view(r) == outgoing(
                data@,
                compress,
                old(self)@.next_id,
                old(self)@.magic,
                old(self)@.config,
            ),
            sealed(data@, compress, old(self)@.config.compression_level) matches Ok((p, c))
                ==> carries(p, c, data@),
    {
        proof {
            use_type_invariant(&*self);
        }
        let msg_id = self.next_id;
        self.next_id = if self.next_id == u64::MAX {
            0
        } else {
            self.next_id + 1
        };
        let sealed_payload = seal_payload(data, compress, self.config.compression_level);
        match sealed_payload {
            Err(e) => Err(e),
            Ok((payload, compressed)) => {
                let flags = if compressed {
                    FLAG_COMPRESSED
                } else {
                    0
                };
                frame_payload(
                    payload.as_slice(),
                    msg_id,
                    self.magic,
                    flags,
                    self.config.max_total_fragments,
                    self.config.payload_limit_exec(),
                )
            },
        }
    }

    /// Checks a header read from the stream: its magic number must be this
    /// endpoint's and its payload no longer than a fragment may carry.
    pub fn accept_header(&self, buf: &[u8; HEADER_SIZE]) -> (r: Result<
        FragmentHeader,
        ProtocolError,
    >)
        ensures
            r == accepted(buf@, self@.magic),
    {
        let header = FragmentHeader::decode(buf, self.magic)?;
        if header.payload_len as usize > MAX_PAYLOAD_SIZE {
            return Err(ProtocolError::PayloadTooLarge { len: header.payload_len });
        }
        Ok(header)
    }

    /// Takes in one fragment read from the stream, with its header (as
    /// accepted by `accept_header`), at clock reading `now` (nanoseconds).
    /// Fragments of a message already delivered are ignored. Returns the
    /// message once its last fragment is in, reassembled, decompressed
    /// where flagged and checked against its CRC.
    pub fn on_fragment(&mut self, header: FragmentHeader, payload: Vec<u8>, now: u64) -> (r: Result<
        Option<Vec<u8>>,
        ProtocolError,
    >)
        ensures
            (final(self)@, delivered_view(r)) == old(self)@.step(header, payload@, now),
    {
        proof {
            use_type_invariant(&*self);
        }
        let ghost old_view = self@;
        let id = header.message_id;
        if self.completed.contains_key(&id) {
            return Ok(None);
        }
        if header.total_fragments > self.config.max_total_fragments {
            return Err(
                ProtocolError::TooManyFragments {
                    announced: header.total_fragments,
                    limit: self.config.max_total_fragments,
                },
            );
        }
        let compressed = header.flags & FLAG_COMPRESSED != 0;
        let mut assemblers: HashMap<u64, MessageAssembler> = HashMap::new();
        std::mem::swap(&mut assemblers, &mut self.assemblers);
        let assembler = match assemblers.remove(&id) {
            Some(a) => a,
            None => MessageAssembler::new(id, header.total_fragments, compressed, now),
        };
        proof {
            use_type_invariant(&assembler);
        }
        let ghost a = assembler@;
        assert(a == old_view.assembler_for(header, now));
        assert(views(assemblers@) =~= old_view.assemblers.remove(id));
        if assembler.is_expired(now, self.config.assembler_timeout) {
            self.assemblers = assemblers;
            return Err(ProtocolError::AssemblyTimeout { message_id: id });
        }
        let mut assembler = assembler;
        let complete = assembler.add_fragment(header.fragment_index, payload);
        if !complete {
            assemblers.insert(id, assembler);
            assert(views(assemblers@) =~= old_view.assemblers.insert(
                id,
                a.after_fragment(header.fragment_index, payload@),
            ));
            self.assemblers = assemblers;
            return Ok(None);
        }
        self.assemblers = assemblers;
        let limit = self.config.payload_limit_exec();
        let assembled = match assembler.assemble(limit) {
            Ok(bytes) => bytes,
            Err(e) => return Err(e),
        };
        let mut completed: HashMap<u64, u64> = HashMap::new();
        std::mem::swap(&mut completed, &mut self.completed);
        completed.insert(id, now);
        self.completed = completed;
        match open_payload(assembled.as_slice()) {
            Ok(data) => Ok(Some(data)),
            Err(e) => Err(e),
        }
    }

    /// Forgets incomplete messages whose assembler timeout has passed at
    /// clock reading `now`, and delivered ids remembered longer than the
    /// completed timeout; then, where more remain than the limits allow,
    /// drops the oldest of each down to the limit.
    pub fn cleanup(&mut self, now: u64)
        ensures
            final(self)@.next_id == old(self)@.next_id,
            final(self)@.config == old(self)@.config,
            final(self)@.magic == old(self)@.magic,
            final(self)@.assemblers.len() <= old(self)@.config.max_assemblers,
            final(self)@.completed.len() <= old(self)@.config.max_completed,
            forall|k: u64| #[trigger]
                final(self)@.assemblers.contains_key(k) ==> {
                    &&& old(self)@.assemblers.contains_key(k)
                    &&& final(self)@.assemblers[k] == old(self)@.assemblers[k]
                    &&& !(now > old(self)@.assemblers[k].created_at && now - old(
                        self,
                    )@.assemblers[k].created_at > old(self)@.config.assembler_timeout)
                },
            forall|r: u64, k: u64|
                old(self)@.assemblers.contains_key(r) && !(now > old(self)@.assemblers[r].created_at
                    && now - old(self)@.assemblers[r].created_at > old(
                    self,
                )@.config.assembler_timeout) && !#[trigger] final(self)@.assemblers.contains_key(r)
                    && #[trigger] final(self)@.assemblers.contains_key(k) ==> old(
                    self,
                )@.assemblers[r].created_at <= old(self)@.assemblers[k].created_at,
            forall|r: u64|
                old(self)@.assemblers.contains_key(r) && !(now > old(self)@.assemblers[r].created_at
                    && now - old(self)@.assemblers[r].created_at > old(
                    self,
                )@.config.assembler_timeout) && !#[trigger] final(self)@.assemblers.contains_key(r)
                    ==> final(self)@.assemblers.len() == old(self)@.config.max_assemblers,
            forall|k: u64| #[trigger]
                final(self)@.completed.contains_key(k) ==> {
                    &&& old(self)@.completed.contains_key(k)
                    &&& final(self)@.completed[k] == old(self)@.completed[k]
                    &&& !(now > old(self)@.completed[k] && now - old(self)@.completed[k] > old(
                        self,
                    )@.config.completed_timeout)
                },
            forall|r: u64, k: u64|
                old(self)@.completed.contains_key(r) && !(now > old(self)@.completed[r] && now - old(
                    self,
                )@.completed[r] > old(self)@.config.completed_timeout)
                    && !#[trigger] final(self)@.completed.contains_key(r)
                    && #[trigger] final(self)@.completed.contains_key(k) ==> old(
                    self,
                )@.completed[r] <= old(self)@.completed[k],
            forall|r: u64|
                old(self)@.completed.contains_key(r) && !(now > old(self)@.completed[r] && now - old(
                    self,
                )@.completed[r] > old(self)@.config.completed_timeout)
                    && !#[trigger] final(self)@.completed.contains_key(r)
                    ==> final(self)@.completed.len() == old(self)@.config.max_completed,
            ({
                let live = unexpired_assemblers(
                    old(self)@.assemblers,
                    now,
                    old(self)@.config.assembler_timeout,
                );
                &&& final(self)@.assemblers == live.restrict(final(self)@.assemblers.dom())
                &&& keeps_newest(
                    created_times(live),
                    final(self)@.assemblers.dom(),
                    old(self)@.config.max_assemblers,
                )
            }),
            ({
                let live = unexpired_completed(
                    old(self)@.completed,
                    now,
                    old(self)@.config.completed_timeout,
                );
                &&& final(self)@.completed == live.restrict(final(self)@.completed.dom())
                &&& keeps_newest(live, final(self)@.completed.dom(), old(self)@.config.max_completed)
            }),
    {
        proof {
            use_type_invariant(&*self);
        }
        let ghost old_view = self@;
        let mut assemblers: HashMap<u64, MessageAssembler> = HashMap::new();
        std::mem::swap(&mut assemblers, &mut self.assemblers);
        let mut completed: HashMap<u64, u64> = HashMap::new();
        std::mem::swap(&mut completed, &mut self.completed);
        drop_expired_assemblers(&mut assemblers, now, self.config.assembler_timeout);
        drop_expired_times(&mut completed, now, self.config.completed_timeout);
        let ghost live_a = unexpired_assemblers(old_view.assemblers, now, old_view.config.assembler_timeout);
        let ghost live_c = unexpired_completed(old_view.completed, now, old_view.config.completed_timeout);
        assert(views(assemblers@) =~= live_a);
        assert(completed@ =~= live_c);
        let ghost raw1 = assemblers@;
        assert(created_times(live_a).dom() =~= raw1.dom());
        if assemblers.len() > self.config.max_assemblers {
            let ids = keys_of(&assemblers);
            let mut times: Vec<u64> = Vec::new();
            let mut i: usize = 0;
            while i < ids.len()
                invariant
                    assemblers@ == raw1,
                    ids@.to_set() == raw1.dom(),
                    i <= ids@.len(),
                    times@.len() == i,
                    forall|j: int| 0 <= j < i ==> times@[j] == raw1[#[trigger] ids@[j]]@.created_at,
                decreases ids@.len() - i,
            {
                assert(ids@.to_set().contains(ids@[i as int]));
                let t = match assemblers.get(&ids[i]) {
                    Some(a) => a.created_at(),
                    None => 0,
                };
                times.push(t);
                i = i + 1;
            }
            evict_oldest(
                &mut assemblers,
                &ids,
                &times,
                self.config.max_assemblers,
                Ghost(created_times(live_a)),
            );
        }
        assert(views(assemblers@) =~= live_a.restrict(views(assemblers@).dom()));
        assert(views(assemblers@).dom() =~= assemblers@.dom());
        assert(keeps_newest(created_times(live_a), views(assemblers@).dom(), old_view.config.max_assemblers)) by {
            if !(raw1.len() > old_view.config.max_assemblers) {
                assert(views(assemblers@).dom() =~= created_times(live_a).dom());
            }
        }
        self.assemblers = assemblers;
        let ghost raw2 = completed@;
        if completed.len() > self.config.max_completed {
            let ids = keys_of(&completed);
            let mut times: Vec<u64> = Vec::new();
            let mut i: usize = 0;
            while i < ids.len()
                invariant
                    completed@ == raw2,
                    ids@.to_set() == raw2.dom(),
                    i <= ids@.len(),
                    times@.len() == i,
                    forall|j: int| 0 <= j < i ==> times@[j] == raw2[#[trigger] ids@[j]],
                decreases ids@.len() - i,
            {
                assert(ids@.to_set().contains(ids@[i as int]));
                let t = match completed.get(&ids[i]) {
                    Some(t) => *t,
                    None => 0,
                };
                times.push(t);
                i = i + 1;
            }
            evict_oldest(&mut completed, &ids, &times, self.config.max_completed, Ghost(live_c));
        }
        assert(completed@ =~= live_c.restrict(completed@.dom()));
        self.completed = completed;
        proof {
            crate::eviction::lemma_keeps_newest_bound(
                created_times(live_a),
                self@.assemblers.dom(),
                old_view.config.max_assemblers,
            );
            crate::eviction::lemma_keeps_newest_bound(
                live_c,
                self@.completed.dom(),
                old_view.config.max_completed,
            );
        }
    }

    /// Whether there are more incomplete messages, or more remembered ids,
    /// than the configuration allows, so that a cleanup is due.
    pub fn needs_cleanup(&self) -> (r: bool)
        ensures
            r == (self@.assemblers.len() > self@.config.max_assemblers || self@.completed.len()
                > self@.config.max_completed),
    {
        proof {
            assert(self@.assemblers.dom() =~= self.assemblers@.dom());
        }
        self.assemblers.len() > self.config.max_assemblers || self.completed.len()
            > self.config.max_completed
    }
}

} // verus!

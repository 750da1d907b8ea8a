use vstd::prelude::*;

use crate::compress::{zlib_decompress, zlib_decompressed};
use crate::error::ProtocolError;

verus! {

/// How many entries of `received` are `true`.
pub open spec fn count_received(received: Seq<bool>) -> nat
    decreases received.len(),
{
    if received.len() == 0 {
        0
    } else {
        count_received(received.drop_last()) + if received.last() {
            1nat
        } else {
            0nat
        }
    }
}

/// Marking one unmarked entry raises the count by one.
pub proof fn lemma_count_mark(received: Seq<bool>, i: int)
    requires
        0 <= i < received.len(),
        !received[i],
    ensures
        count_received(received.update(i, true)) == count_received(received) + 1,
    decreases received.len(),
{
    let u = received.update(i, true);
    if i == received.len() - 1 {
        assert(u.drop_last() =~= received.drop_last());
    } else {
        lemma_count_mark(received.drop_last(), i);
        assert(u.drop_last() =~= received.drop_last().update(i, true));
    }
}

/// The count never exceeds the length.
pub proof fn lemma_count_bounded(received: Seq<bool>)
    ensures
        count_received(received) <= received.len(),
    decreases received.len(),
{
    if received.len() > 0 {
        lemma_count_bounded(received.drop_last());
    }
}

/// The abstract state of a [`MessageAssembler`].
pub struct AssemblerView {
    pub message_id: u64,
    pub total_fragments: u16,
    /// Fragment `i` as received, empty while it has not arrived.
    pub fragments: Seq<Seq<u8>>,
    /// Whether fragment `i` has arrived.
    pub received: Seq<bool>,
    pub received_count: nat,
    pub compressed: bool,
    /// The clock reading (nanoseconds) at which the assembler was made.
    pub created_at: u64,
}

impl AssemblerView {
    /// The state of a new assembler: nothing received yet.
    pub open spec fn fresh(message_id: u64, total_fragments: u16, compressed: bool, now: u64) -> Self {
        AssemblerView {
            message_id,
            total_fragments,
            fragments: Seq::new(total_fragments as nat, |i: int| Seq::<u8>::empty()),
            received: Seq::new(total_fragments as nat, |i: int| false),
            received_count: 0,
            compressed,
            created_at: now,
        }
    }

    /// One slot per announced fragment, the count matching the marks, and
    /// no bytes in a slot that has not been filled.
    pub open spec fn wf(self) -> bool {
        &&& self.fragments.len() == self.total_fragments
        &&& self.received.len() == self.total_fragments
        &&& self.received_count == count_received(self.received)
        &&& forall|i: int|
            0 <= i < self.received.len() && !#[trigger] self.received[i]
                ==> self.fragments[i].len() == 0
    }

    /// Every announced fragment has arrived.
    pub open spec fn is_complete(self) -> bool {
        self.received_count == self.total_fragments
    }

    /// The fragments concatenated in index order.
    pub open spec fn contents(self) -> Seq<u8> {
        self.fragments.flatten()
    }

    /// Whether more than `timeout` nanoseconds have passed between the
    /// assembler's creation and `now` (a clock reading before the creation
    /// counts as no time passed).
    pub open spec fn expired_at(self, now: u64, timeout: u64) -> bool {
        now > self.created_at && now - self.created_at > timeout
    }

    /// The state after fragment `index` with bytes `data` is offered.
    pub open spec fn after_fragment(self, index: u16, data: Seq<u8>) -> AssemblerView {
        if index < self.received.len() && !self.received[index as int] {
            AssemblerView {
                fragments: self.fragments.update(index as int, data),
                received: self.received.update(index as int, true),
                received_count: self.received_count + 1,
                ..self
            }
        } else {
            self
        }
    }

    /// What reassembly yields: the concatenated fragments (zlib-decoded when
    /// the message is compressed), or why there is none.
    pub open spec fn assembled(self, max_message_size: usize) -> Result<Seq<u8>, ProtocolError> {
        if !self.is_complete() {
            Err(
                ProtocolError::Incomplete {
                    message_id: self.message_id,
                    received: self.received_count as usize,
                    total: self.total_fragments,
                },
            )
        } else if self.contents().len() > max_message_size {
            Err(
                ProtocolError::MessageTooLarge {
                    size: if self.contents().len() > usize::MAX {
                        usize::MAX
                    } else {
                        self.contents().len() as usize
                    },
                    max_size: max_message_size,
                },
            )
        } else if self.compressed {
            match zlib_decompressed(self.contents()) {
                Some(out) => Ok(out),
                None => Err(ProtocolError::DecompressionFailed),
            }
        } else {
            Ok(self.contents())
        }
    }
}

/// The bytes of a result, by view.
pub open spec fn bytes_result(r: Result<Vec<u8>, ProtocolError>) -> Result<Seq<u8>, ProtocolError> {
    match r {
        Ok(v) => Ok(v@),
        Err(e) => Err(e),
    }
}

/// Collects the fragments of one message until all have arrived.
pub struct MessageAssembler {
    message_id: u64,
    total_fragments: u16,
    fragments: Vec<Vec<u8>>,
    received: Vec<bool>,
    received_count: usize,
    compressed: bool,
    created_at: u64,
}

impl View for MessageAssembler {
    type V = AssemblerView;

    closed spec fn view(&self) -> AssemblerView {
        AssemblerView {
            message_id: self.message_id,
            total_fragments: self.total_fragments,
            fragments: self.fragments@.map_values(|f: Vec<u8>| f@),
            received: self.received@,
            received_count: self.received_count as nat,
            compressed: self.compressed,
            created_at: self.created_at,
        }
    }
}

impl MessageAssembler {
    /// The assembler's state is well formed, always.
    #[verifier::type_invariant]
    pub open spec fn wf(&self) -> bool {
        self@.wf()
    }

    /// An empty assembler for `total_fragments` fragments of message
    /// `message_id`, created at clock reading `now` (nanoseconds).
    pub fn new(message_id: u64, total_fragments: u16, compressed: bool, now: u64) -> (a: Self)
        ensures
            a@.wf(),
            a@.message_id == message_id,
            a@.total_fragments == total_fragments,
            a@.compressed == compressed,
            a@.created_at == now,
            a@.received_count == 0,
            a@.received == Seq::new(total_fragments as nat, |i: int| false),
            a@.fragments == Seq::new(total_fragments as nat, |i: int| Seq::<u8>::empty()),
            a@ == AssemblerView::fresh(message_id, total_fragments, compressed, now),
    {
        let cap = total_fragments as usize;
        let mut fragments: Vec<Vec<u8>> = Vec::new();
        let mut received: Vec<bool> = Vec::new();
        let mut i: usize = 0;
        while i < cap
            invariant
                i <= cap,
                cap == total_fragments,
                fragments@.len() == i,
                received@.len() == i,
                forall|j: int| 0 <= j < i ==> (#[trigger] fragments@[j])@.len() == 0,
                forall|j: int| 0 <= j < i ==> !(#[trigger] received@[j]),
            decreases cap - i,
        {
            fragments.push(Vec::new());
            received.push(false);
            i = i + 1;
        }
        proof {
            lemma_count_zero(received@);
        }
        let a = MessageAssembler {
            message_id,
            total_fragments,
            fragments,
            received,
            received_count: 0,
            compressed,
            created_at: now,
        };
        assert(a@.received =~= Seq::new(total_fragments as nat, |i: int| false));
        assert forall|j: int| 0 <= j < total_fragments implies #[trigger] a@.fragments[j]
            == Seq::<u8>::empty() by {
            assert(a@.fragments[j] =~= Seq::<u8>::empty());
        }
        assert(a@.fragments =~= Seq::new(total_fragments as nat, |i: int| Seq::<u8>::empty()));
        assert(count_received(a@.received) == 0) by {
            lemma_count_zero(a@.received);
        }
        a
    }

    /// Stores fragment `index`. An index outside the message, or one that
    /// has arrived already, is ignored. Returns whether every fragment has
    /// now arrived (`false` when the fragment was ignored).
    pub fn add_fragment(&mut self, index: u16, data: Vec<u8>) -> (complete: bool)
        ensures
            old(self)@.wf(),
            final(self)@.wf(),
            final(self)@ == old(self)@.after_fragment(index, data@),
            complete == (index < old(self)@.total_fragments && !old(self)@.received[index as int]
                && final(self)@.is_complete()),
    {
        proof {
            use_type_invariant(&*self);
        }
        let idx = index as usize;
        if idx >= self.fragments.len() || self.received[idx] {
            return false;
        }
        let ghost old_view = self@;
        let mut taken = MessageAssembler::new(self.message_id, 0, false, 0);
        std::mem::swap(self, &mut taken);
        proof {
            use_type_invariant(&taken);
            lemma_count_mark(taken.received@, idx as int);
            lemma_count_bounded(taken.received@);
        }
        let MessageAssembler {
            message_id,
            total_fragments,
            mut fragments,
            mut received,
            received_count,
            compressed,
            created_at,
        } = taken;
        fragments.set(idx, data);
        received.set(idx, true);
        let updated = MessageAssembler {
            message_id,
            total_fragments,
            fragments,
            received,
            received_count: received_count + 1,
            compressed,
            created_at,
        };
        assert(updated@.fragments =~= old_view.fragments.update(idx as int, data@));
        assert(updated@.received =~= old_view.received.update(idx as int, true));
        let complete = updated.received_count == updated.total_fragments as usize;
        *self = updated;
        complete
    }

    /// Whether more than `timeout` nanoseconds separate the creation of
    /// this assembler from the clock reading `now`.
    pub fn is_expired(&self, now: u64, timeout: u64) -> (r: bool)
        ensures
            self@.wf(),
            r == self@.expired_at(now, timeout),
    {
        proof {
            use_type_invariant(self);
        }
        now > self.created_at && now - self.created_at > timeout
    }

    /// The clock reading at which this assembler was made.
    pub fn created_at(&self) -> (t: u64)
        ensures
            t == self@.created_at,
    {
        self.created_at
    }

    /// The message id this assembler collects.
    pub fn message_id(&self) -> (id: u64)
        ensures
            id == self@.message_id,
    {
        self.message_id
    }

    /// The fragments concatenated in index order, once all have arrived,
    /// and zlib-decoded where the message was sent compressed.
    pub fn assemble(self, max_message_size: usize) -> (r: Result<Vec<u8>, ProtocolError>)
        ensures
            self@.wf(),
            bytes_result(r) == self@.assembled(max_message_size),
    {
        proof {
            use_type_invariant(&self);
        }
        if self.received_count != self.total_fragments as usize {
            return Err(
                ProtocolError::Incomplete {
                    message_id: self.message_id,
                    received: self.received_count,
                    total: self.total_fragments,
                },
            );
        }
        let ghost frags = self@.fragments;
        let n = self.fragments.len();
        let mut total_len: usize = 0;
        let mut overflow = false;
        let mut i: usize = 0;
        while i < n
            invariant
                n == self.fragments@.len(),
                frags == self@.fragments,
                i <= n,
                !overflow ==> total_len == frags.take(i as int).flatten().len(),
                overflow ==> frags.take(i as int).flatten().len() > usize::MAX,
            decreases n - i,
        {
            assert(frags.take(i + 1) =~= frags.take(i as int).push(frags[i as int]));
            proof {
                frags.take(i as int).lemma_flatten_push(frags[i as int]);
            }
            let len = self.fragments[i].len();
            if !overflow {
                match total_len.checked_add(len) {
                    Some(t) => total_len = t,
                    None => overflow = true,
                }
            }
            i = i + 1;
        }
        assert(frags.take(n as int) =~= frags);
        if overflow || total_len > max_message_size {
            let size = if overflow {
                usize::MAX
            } else {
                total_len
            };
            return Err(ProtocolError::MessageTooLarge { size, max_size: max_message_size });
        }
        let mut full_data: Vec<u8> = Vec::new();
        let mut j: usize = 0;
        while j < n
            invariant
                n == self.fragments@.len(),
                frags == self@.fragments,
                j <= n,
                full_data@ == frags.take(j as int).flatten(),
            decreases n - j,
        {
            assert(frags.take(j + 1) =~= frags.take(j as int).push(frags[j as int]));
            proof {
                frags.take(j as int).lemma_flatten_push(frags[j as int]);
            }
            let mut k: usize = 0;
            let ghost before = full_data@;
            let frag = &self.fragments[j];
            while k < frag.len()
                invariant
                    k <= frag@.len(),
                    frag@ == frags[j as int],
                    full_data@ == before + frag@.take(k as int),
                decreases frag@.len() - k,
            {
                full_data.push(frag[k]);
                k = k + 1;
                assert(frag@.take(k as int) =~= frag@.take(k - 1).push(frag@[k - 1]));
                assert(full_data@ =~= before + frag@.take(k as int));
            }
            assert(frag@.take(k as int) =~= frag@);
            j = j + 1;
        }
        assert(frags.take(n as int) =~= frags);
        if self.compressed {
            match zlib_decompress(full_data.as_slice()) {
                Some(out) => Ok(out),
                None => Err(ProtocolError::DecompressionFailed),
            }
        } else {
            Ok(full_data)
        }
    }
}

/// A sequence with no mark counts zero.
proof fn lemma_count_zero(received: Seq<bool>)
    requires
        forall|i: int| 0 <= i < received.len() ==> !received[i],
    ensures
        count_received(received) == 0,
    decreases received.len(),
{
    if received.len() > 0 {
        lemma_count_zero(received.drop_last());
    }
}

} // verus!

//! The receiver's collection of chunks and reassembly of the file.
//!
//! The chunk count and transfer identifier are taken from the first chunk and
//! not checked against later ones. The first arrival of each sequence number
//! is kept and later duplicates are ignored; the transfer is complete when the
//! number of distinct sequence numbers equals the count, and the file is then
//! the kept payloads joined in ascending sequence-number order.
use vstd::prelude::*;
use std::collections::HashMap;
use crate::packet::{ack_bytes, be_bytes, decodes_to, finish_signal_spec, is_finish_signal, Packet, HEADER_SIZE};
use crate::splitter::{concat_payloads, is_split_of, lemma_split_complete};

verus! {

broadcast use vstd::std_specs::hash::group_hash_axioms;

/// The total a transfer is taken to have once `p` has arrived: the one
/// already known, else the one `p` carries.
pub open spec fn total_after(expected_total: Option<u32>, p: Packet) -> u32 {
    match expected_total {
        Some(t) => t,
        None => p.total_packets,
    }
}

/// Collected payloads after `p` arrives: the first arrival of a sequence
/// number is kept; a later one changes nothing.
pub open spec fn received_after(m: Map<u32, Vec<u8>>, p: Packet) -> Map<u32, Vec<u8>> {
    if !m.contains_key(p.packet_number) {
        m.insert(p.packet_number, p.payload)
    } else {
        m
    }
}

/// Payloads of the sequence numbers below `n` that `m` holds, joined in
/// ascending order.
pub open spec fn join_below(m: Map<u32, Vec<u8>>, n: nat) -> Seq<u8>
    decreases n,
{
    if n == 0 {
        Seq::empty()
    } else {
        join_below(m, (n - 1) as nat) + if m.contains_key((n - 1) as u32) {
            m[(n - 1) as u32]@
        } else {
            Seq::empty()
        }
    }
}

/// Number of distinct `u32` sequence numbers.
pub open spec fn seq_number_space() -> nat {
    0x1_0000_0000
}

/// All payloads of `m`, joined in ascending sequence-number order.
pub open spec fn join_ascending(m: Map<u32, Vec<u8>>) -> Seq<u8> {
    join_below(m, seq_number_space())
}

/// Payloads of `m` for the keys `ks`, joined in the order of `ks`.
pub open spec fn join_keys(m: Map<u32, Vec<u8>>, ks: Seq<u32>) -> Seq<u8>
    decreases ks.len(),
{
    if ks.len() == 0 {
        Seq::empty()
    } else {
        join_keys(m, ks.drop_last()) + m[ks.last()]@
    }
}

/// `ks` is strictly ascending.
pub open spec fn ascending(ks: Seq<u32>) -> bool {
    forall|i: int, j: int| 0 <= i < j < ks.len() ==> ks[i] < ks[j]
}

/// Whether a datagram begins with the termination signal.
pub open spec fn is_signal(data: Seq<u8>) -> bool {
    data.len() >= finish_signal_spec().len() && data.subrange(0, finish_signal_spec().len() as int)
        == finish_signal_spec()
}

/// What the receiver does with one datagram.
#[derive(Debug, Clone, PartialEq, Eq)]
pub enum ReceiveAction {
    /// The termination signal: stop receiving.
    Terminate,
    /// Not a frame: drop it and go on.
    Discard,
    /// A chunk: send these bytes back as its acknowledgment.
    Acknowledge(Vec<u8>),
}

/// How a transfer ended.
#[derive(Debug, Clone, PartialEq, Eq)]
pub enum TransferOutcome {
    /// No chunk arrived, so the total is unknown.
    NoTotal,
    /// The number of distinct chunks is not the expected one.
    Incomplete { expected: u32, received: usize },
    /// As many distinct chunks as expected arrived; `data` is the file.
    Complete { file_id: u32, data: Vec<u8> },
}

/// State of one incoming transfer.
pub struct ReceiverTransfer {
    /// Chunk count, latched from the first chunk.
    pub expected_total: Option<u32>,
    /// Transfer identifier, latched from the first chunk.
    pub file_id: Option<u32>,
    /// Payloads by sequence number.
    pub received: HashMap<u32, Vec<u8>>,
    /// The sequence numbers held in `received`, ascending.
    pub order: Vec<u32>,
}

impl ReceiverTransfer {
    /// Total and identifier are known together, nothing is held before them,
    /// and `order` lists the held sequence numbers in ascending order.
    pub open spec fn wf(&self) -> bool {
        &&& self.expected_total.is_some() == self.file_id.is_some()
        &&& self.expected_total.is_none() ==> self.received@.dom().is_empty()
        &&& ascending(self.order@)
        &&& forall|i: int|
            0 <= i < self.order@.len() ==> self.received@.contains_key(#[trigger] self.order@[i])
        &&& forall|k: u32| #[trigger] self.received@.contains_key(k) ==> self.order@.contains(k)
    }

    /// A receiver that has seen nothing.
    pub fn new() -> (r: ReceiverTransfer)
        ensures
            r.wf(),
            r.expected_total.is_none(),
            r.file_id.is_none(),
            r.received@ == Map::<u32, Vec<u8>>::empty(),
    {
        ReceiverTransfer {
            expected_total: None,
            file_id: None,
            received: HashMap::new(),
            order: Vec::new(),
        }
    }

    /// Takes in a decoded chunk: the first one latches total and identifier;
    /// the first arrival of each sequence number is kept.
    pub fn store(&mut self, p: Packet)
        requires
            old(self).wf(),
        ensures
            final(self).wf(),
            final(self).expected_total == Some(total_after(old(self).expected_total, p)),
            final(self).file_id == (match old(self).file_id {
                Some(f) => Some(f),
                None => Some(p.file_id),
            }),
            final(self).received@ == received_after(old(self).received@, p),
    {
        if self.expected_total.is_none() {
            self.expected_total = Some(p.total_packets);
            self.file_id = Some(p.file_id);
        }
        let seq = p.packet_number;
        if !self.received.contains_key(&seq) {
            let mut pos: usize = 0;
            while pos < self.order.len() && self.order[pos] < seq
                invariant
                    pos <= self.order@.len(),
                    forall|i: int| 0 <= i < pos ==> #[trigger] self.order@[i] < seq,
                decreases self.order@.len() - pos,
            {
                pos = pos + 1;
            }
            let ghost before = self.order@;
            assert(!before.contains(seq));
            assert forall|i: int| pos <= i < before.len() implies #[trigger] before[i] > seq by {
                if before[i] == seq {
                    assert(before.contains(seq));
                }
                if i > pos {
                    assert(before[pos as int] < before[i]);
                }
            }
            self.order.insert(pos, seq);
            self.received.insert(seq, p.payload);
            assert forall|k: u32| #[trigger] self.received@.contains_key(k) implies self.order@.contains(k) by {
                if k == seq {
                    assert(self.order@[pos as int] == seq);
                } else {
                    assert(before.contains(k));
                    let j = choose|j: int| 0 <= j < before.len() && before[j] == k;
                    if j < pos {
                        assert(self.order@[j] == k);
                    } else {
                        assert(self.order@[j + 1] == k);
                    }
                }
            }
        }
    }

    /// Handles one datagram: the termination signal, a malformed frame, or a
    /// chunk to store and acknowledge with its four-byte sequence number.
    pub fn handle_datagram(&mut self, data: &[u8]) -> (r: ReceiveAction)
        requires
            old(self).wf(),
        ensures
            final(self).wf(),
            is_signal(data@) ==> {
                &&& r == ReceiveAction::Terminate
                &&& *final(self) == *old(self)
            },
            !is_signal(data@) && data@.len() < HEADER_SIZE ==> {
                &&& r == ReceiveAction::Discard
                &&& *final(self) == *old(self)
            },
            !is_signal(data@) && data@.len() >= HEADER_SIZE ==> exists|p: Packet|
                {
                    &&& decodes_to(data@, p)
                    &&& r matches ReceiveAction::Acknowledge(a)
                    &&& a@ == be_bytes(p.packet_number)
                    &&& final(self).expected_total == Some(total_after(old(self).expected_total, p))
                    &&& final(self).file_id == (match old(self).file_id {
                        Some(f) => Some(f),
                        None => Some(p.file_id),
                    })
                    &&& final(self).received@ == received_after(old(self).received@, p)
                },
    {
        if is_finish_signal(data) {
            return ReceiveAction::Terminate;
        }
        match Packet::deserialize(data) {
            Ok(p) => {
                let ack = ack_bytes(p.packet_number);
                let ghost q = p;
                self.store(p);
                assert(decodes_to(data@, q));
                ReceiveAction::Acknowledge(ack)
            },
            Err(_) => ReceiveAction::Discard,
        }
    }

    /// Decides the transfer once the termination signal has come: complete
    /// when exactly the expected number of distinct sequence numbers has
    /// arrived, the file being their payloads in ascending order.
    pub fn finish(&self) -> (r: TransferOutcome)
        requires
            self.wf(),
        ensures
            self.expected_total.is_none() ==> r == TransferOutcome::NoTotal,
            self.expected_total matches Some(t) ==> {
                if self.received@.len() == t {
                    r matches TransferOutcome::Complete { file_id, data } && Some(file_id)
                        == self.file_id && data@ == join_ascending(self.received@)
                } else {
                    r == TransferOutcome::Incomplete {
                        expected: t,
                        received: self.received@.len() as usize,
                    }
                }
            },
    {
        match self.expected_total {
            None => TransferOutcome::NoTotal,
            Some(t) => {
                let count = self.received.len();
                if count != t as usize {
                    return TransferOutcome::Incomplete { expected: t, received: count };
                }
                let mut data: Vec<u8> = Vec::new();
                let mut i: usize = 0;
                while i < self.order.len()
                    invariant
                        self.wf(),
                        i <= self.order@.len(),
                        data@ == join_keys(self.received@, self.order@.take(i as int)),
                    decreases self.order@.len() - i,
                {
                    let key = self.order[i];
                    assert(self.received@.contains_key(key));
                    let payload = self.received.get(&key);
                    match payload {
                        Some(bytes) => {
                            let mut j: usize = 0;
                            let ghost before = data@;
                            while j < bytes.len()
                                invariant
                                    j <= bytes@.len(),
                                    data@ == before + bytes@.subrange(0, j as int),
                                decreases bytes@.len() - j,
                            {
                                data.push(bytes[j]);
                                j = j + 1;
                                assert(bytes@.subrange(0, j as int) =~= bytes@.subrange(
                                    0,
                                    j - 1,
                                ).push(bytes@[j - 1]));
                            }
                            assert(bytes@.subrange(0, j as int) =~= bytes@);
                        },
                        None => {
                            assert(false);
                        },
                    }
                    assert(self.order@.take(i + 1).drop_last() =~= self.order@.take(i as int));
                    i = i + 1;
                }
                proof {
                    assert(self.order@.take(self.order@.len() as int) =~= self.order@);
                    lemma_join_keys_ascending(self.received@, self.order@, seq_number_space());
                }
                let file_id = match self.file_id {
                    Some(f) => f,
                    None => 0,
                };
                TransferOutcome::Complete { file_id, data }
            },
        }
    }
}

/// Joining the payloads along an ascending list of exactly the held
/// sequence numbers below `n` is joining them in ascending order.
proof fn lemma_join_keys_ascending(m: Map<u32, Vec<u8>>, ks: Seq<u32>, n: nat)
    requires
        n <= seq_number_space(),
        ascending(ks),
        forall|i: int| 0 <= i < ks.len() ==> m.contains_key(#[trigger] ks[i]) && ks[i] < n,
        forall|k: u32| k < n && #[trigger] m.contains_key(k) ==> ks.contains(k),
    ensures
        join_keys(m, ks) == join_below(m, n),
    decreases n,
{
    if n == 0 {
        if ks.len() > 0 {
            assert(ks[0] < n);
        }
        assert(ks =~= Seq::<u32>::empty());
    } else {
        let top = (n - 1) as u32;
        if m.contains_key(top) {
            assert(ks.contains(top));
            let j = choose|j: int| 0 <= j < ks.len() && ks[j] == top;
            if j < ks.len() - 1 {
                assert(ks[j] < ks[ks.len() - 1]);
            }
            let rest = ks.drop_last();
            assert forall|k: u32| k < n - 1 && #[trigger] m.contains_key(k) implies rest.contains(k) by {
                let l = choose|l: int| 0 <= l < ks.len() && ks[l] == k;
                assert(rest[l] == k);
            }
            assert forall|i: int| 0 <= i < rest.len() implies m.contains_key(#[trigger] rest[i])
                && rest[i] < n - 1 by {
                assert(ks[i] < ks[ks.len() - 1]);
            }
            lemma_join_keys_ascending(m, rest, (n - 1) as nat);
        } else {
            assert forall|i: int| 0 <= i < ks.len() implies m.contains_key(#[trigger] ks[i])
                && ks[i] < n - 1 by {
                assert(ks[i] != top);
            }
            lemma_join_keys_ascending(m, ks, (n - 1) as nat);
            assert(join_below(m, n) =~= join_below(m, (n - 1) as nat));
        }
    }
}

/// Joining in ascending order over any bound at or above every held
/// sequence number gives the same bytes.
proof fn lemma_join_below_past_keys(m: Map<u32, Vec<u8>>, n: nat, j: nat)
    requires
        n <= j <= seq_number_space(),
        forall|k: u32| #[trigger] m.contains_key(k) ==> k < n,
    ensures
        join_below(m, j) == join_below(m, n),
    decreases j,
{
    if j > n {
        lemma_join_below_past_keys(m, n, (j - 1) as nat);
        assert(!m.contains_key((j - 1) as u32));
        assert(join_below(m, j) =~= join_below(m, (j - 1) as nat));
    }
}

proof fn lemma_join_below_prefix(m: Map<u32, Vec<u8>>, s: Seq<Packet>, j: int)
    requires
        0 <= j <= s.len() <= seq_number_space(),
        forall|i: int| 0 <= i < s.len() ==> #[trigger] m[i as u32]@ == s[i].payload@,
        forall|k: u32| #[trigger] m.contains_key(k) <==> k < s.len(),
    ensures
        join_below(m, j as nat) == concat_payloads(s.take(j)),
    decreases j,
{
    if j == 0 {
        assert(s.take(0) =~= Seq::<Packet>::empty());
    } else {
        lemma_join_below_prefix(m, s, j - 1);
        assert(s.take(j).drop_last() =~= s.take(j - 1));
        assert(m.contains_key((j - 1) as u32));
        assert(m[(j - 1) as u32]@ == s[j - 1].payload@);
    }
}

/// When the receiver holds, for exactly the sequence numbers of a split,
/// that chunk's payload, reassembly gives back the file that was split.
pub proof fn lemma_reassembly_restores_file(
    m: Map<u32, Vec<u8>>,
    s: Seq<Packet>,
    data: Seq<u8>,
    file_id: u32,
    k: int,
)
    requires
        k > 0,
        is_split_of(s, data, file_id, k),
        s.len() <= u32::MAX,
        forall|i: int| 0 <= i < s.len() ==> #[trigger] m[i as u32]@ == s[i].payload@,
        forall|key: u32| #[trigger] m.contains_key(key) <==> key < s.len(),
    ensures
        join_ascending(m) == data,
{
    lemma_join_below_past_keys(m, s.len(), seq_number_space());
    lemma_join_below_prefix(m, s, s.len() as int);
    assert(s.take(s.len() as int) =~= s);
    lemma_split_complete(s, data, file_id, k);
}

/// A second chunk with a sequence number already taken, whatever its
/// payload, leaves the collected payloads as the first arrival left them.
pub proof fn lemma_first_arrival_kept(m: Map<u32, Vec<u8>>, p: Packet, q: Packet)
    requires
        p.packet_number == q.packet_number,
    ensures
        received_after(received_after(m, p), q) == received_after(m, p),
        received_after(received_after(m, p), q)[p.packet_number] == if m.contains_key(
            p.packet_number,
        ) {
            m[p.packet_number]
        } else {
            p.payload
        },
{
}

} // verus!

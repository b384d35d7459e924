//! The sender's acknowledgment and retry bookkeeping. Each round the caller
//! transmits the pending frames, feeds in the acknowledgments that arrived,
//! and closes the round; the transfer ends when nothing is pending.
//!
//! A chunk that stays unacknowledged for more than `MAX_RETRIES` rounds is
//! abandoned: it leaves the pending set, so it no longer holds the transfer
//! open, and it is listed by `abandoned` so the caller can report the
//! transfer as partially failed.
use vstd::prelude::*;
use crate::packet::{encode, be_value, parse_ack, Packet};

verus! {

/// Rounds a chunk may stay unacknowledged before it is abandoned.
pub const MAX_RETRIES: u32 = 5;

/// Acknowledgment flags after an acknowledgment for `seq`; one for a sequence
/// number outside the transfer changes nothing.
pub open spec fn acked_after(acked: Seq<bool>, seq: u32) -> Seq<bool> {
    if seq < acked.len() {
        acked.update(seq as int, true)
    } else {
        acked
    }
}

/// Chunk `i` is still to be sent: not acknowledged, and not abandoned.
pub open spec fn pending_at(acked: Seq<bool>, retries: Seq<u32>, i: int) -> bool {
    !acked[i] && retries[i] <= MAX_RETRIES
}

/// Chunk `i` has been given up: never acknowledged, and over the ceiling.
pub open spec fn abandoned_at(acked: Seq<bool>, retries: Seq<u32>, i: int) -> bool {
    !acked[i] && retries[i] > MAX_RETRIES
}

/// Chunk `i` is pending at the ceiling: a round without acknowledgment
/// abandons it.
pub open spec fn at_ceiling(acked: Seq<bool>, retries: Seq<u32>, i: int) -> bool {
    !acked[i] && retries[i] == MAX_RETRIES
}

/// Ascending sequence numbers below `n` of the pending chunks.
pub open spec fn pending_upto(acked: Seq<bool>, retries: Seq<u32>, n: int) -> Seq<u32>
    decreases n,
{
    if n <= 0 {
        Seq::empty()
    } else if pending_at(acked, retries, n - 1) {
        pending_upto(acked, retries, n - 1).push((n - 1) as u32)
    } else {
        pending_upto(acked, retries, n - 1)
    }
}

/// Ascending sequence numbers below `n` of the abandoned chunks.
pub open spec fn abandoned_upto(acked: Seq<bool>, retries: Seq<u32>, n: int) -> Seq<u32>
    decreases n,
{
    if n <= 0 {
        Seq::empty()
    } else if abandoned_at(acked, retries, n - 1) {
        abandoned_upto(acked, retries, n - 1).push((n - 1) as u32)
    } else {
        abandoned_upto(acked, retries, n - 1)
    }
}

/// Ascending sequence numbers below `n` of the pending chunks that a round
/// without acknowledgment takes over the ceiling.
pub open spec fn exhausted_upto(acked: Seq<bool>, retries: Seq<u32>, n: int) -> Seq<u32>
    decreases n,
{
    if n <= 0 {
        Seq::empty()
    } else if at_ceiling(acked, retries, n - 1) {
        exhausted_upto(acked, retries, n - 1).push((n - 1) as u32)
    } else {
        exhausted_upto(acked, retries, n - 1)
    }
}

/// Retry counts after a round: each pending chunk counts one more attempt.
pub open spec fn retries_after_round(acked: Seq<bool>, retries: Seq<u32>) -> Seq<u32> {
    Seq::new(
        retries.len(),
        |i: int|
            if pending_at(acked, retries, i) {
                (retries[i] + 1) as u32
            } else {
                retries[i]
            },
    )
}

/// State of one outgoing transfer.
pub struct SenderTransfer {
    /// The chunks, in sequence order.
    pub packets: Vec<Packet>,
    /// Whether each chunk has been acknowledged.
    pub acked: Vec<bool>,
    /// Rounds each chunk has stayed unacknowledged.
    pub retries: Vec<u32>,
}

impl SenderTransfer {
    /// Chunk `i` sits at position `i`, and there is one flag and one count per chunk.
    pub open spec fn wf(&self) -> bool {
        &&& self.acked@.len() == self.packets@.len()
        &&& self.retries@.len() == self.packets@.len()
        &&& forall|i: int|
            0 <= i < self.packets@.len() ==> (#[trigger] self.packets@[i]).packet_number == i
    }

    /// Sequence numbers of the chunks still to be sent, ascending.
    pub open spec fn pending_spec(&self) -> Seq<u32> {
        pending_upto(self.acked@, self.retries@, self.packets@.len() as int)
    }

    /// Sequence numbers of the abandoned chunks, ascending.
    pub open spec fn abandoned_spec(&self) -> Seq<u32> {
        abandoned_upto(self.acked@, self.retries@, self.packets@.len() as int)
    }

    /// Whether no chunk is still to be sent.
    pub open spec fn finished_spec(&self) -> bool {
        forall|i: int|
            0 <= i < self.packets@.len() ==> !#[trigger] pending_at(self.acked@, self.retries@, i)
    }

    /// Starts a transfer of `packets`: nothing acknowledged, no retries.
    pub fn new(packets: Vec<Packet>) -> (r: SenderTransfer)
        requires
            forall|i: int| 0 <= i < packets@.len() ==> (#[trigger] packets@[i]).packet_number == i,
        ensures
            r.wf(),
            r.packets@ == packets@,
            r.acked@ == Seq::new(packets@.len(), |i: int| false),
            r.retries@ == Seq::new(packets@.len(), |i: int| 0u32),
    {
        let n = packets.len();
        let mut acked: Vec<bool> = Vec::new();
        let mut retries: Vec<u32> = Vec::new();
        let mut i: usize = 0;
        while i < n
            invariant
                i <= n,
                acked@ == Seq::new(i as nat, |j: int| false),
                retries@ == Seq::new(i as nat, |j: int| 0u32),
            decreases n - i,
        {
            acked.push(false);
            retries.push(0);
            i = i + 1;
            assert(acked@ =~= Seq::new(i as nat, |j: int| false));
            assert(retries@ =~= Seq::new(i as nat, |j: int| 0u32));
        }
        SenderTransfer { packets, acked, retries }
    }

    /// Marks chunk `seq` acknowledged. Acknowledgments for unknown or already
    /// acknowledged sequence numbers are accepted and change nothing more.
    pub fn acknowledge(&mut self, seq: u32)
        requires
            old(self).wf(),
        ensures
            final(self).wf(),
            final(self).packets@ == old(self).packets@,
            final(self).retries@ == old(self).retries@,
            final(self).acked@ == acked_after(old(self).acked@, seq),
    {
        if (seq as usize) < self.acked.len() {
            self.acked.set(seq as usize, true);
        }
    }

    /// Takes in one acknowledgment datagram: its first four bytes, big-endian,
    /// are the sequence number. A shorter datagram is ignored.
    pub fn receive_ack(&mut self, datagram: &[u8])
        requires
            old(self).wf(),
        ensures
            final(self).wf(),
            final(self).packets@ == old(self).packets@,
            final(self).retries@ == old(self).retries@,
            final(self).acked@ == (if datagram@.len() >= 4 {
                acked_after(old(self).acked@, be_value(datagram@))
            } else {
                old(self).acked@
            }),
    {
        if let Some(seq) = parse_ack(datagram) {
            self.acknowledge(seq);
        }
    }

    /// Sequence numbers of the chunks still to be sent, ascending.
    pub fn pending_numbers(&self) -> (r: Vec<u32>)
        requires
            self.wf(),
        ensures
            r@ == self.pending_spec(),
    {
        let n = self.packets.len();
        let mut r: Vec<u32> = Vec::new();
        let mut i: usize = 0;
        while i < n
            invariant
                self.wf(),
                n == self.packets@.len(),
                i <= n,
                r@ == pending_upto(self.acked@, self.retries@, i as int),
            decreases n - i,
        {
            assert(self.packets@[i as int].packet_number == i);
            if !self.acked[i] && self.retries[i] <= MAX_RETRIES {
                r.push(i as u32);
            }
            i = i + 1;
        }
        r
    }

    /// The frames to transmit this round: one per pending chunk, ascending.
    pub fn pending_frames(&self) -> (r: Vec<Vec<u8>>)
        requires
            self.wf(),
        ensures
            r@.len() == self.pending_spec().len(),
            forall|j: int|
                0 <= j < r@.len() ==> (#[trigger] r@[j])@ == encode(
                    self.packets@[self.pending_spec()[j] as int],
                ),
    {
        let n = self.packets.len();
        let mut r: Vec<Vec<u8>> = Vec::new();
        let mut i: usize = 0;
        while i < n
            invariant
                self.wf(),
                n == self.packets@.len(),
                i <= n,
                r@.len() == pending_upto(self.acked@, self.retries@, i as int).len(),
                forall|j: int|
                    0 <= j < r@.len() ==> (#[trigger] r@[j])@ == encode(
                        self.packets@[pending_upto(self.acked@, self.retries@, i as int)[j] as int],
                    ),
            decreases n - i,
        {
            assert(self.packets@[i as int].packet_number == i);
            if !self.acked[i] && self.retries[i] <= MAX_RETRIES {
                let frame = self.packets[i].serialize();
                r.push(frame);
            }
            i = i + 1;
        }
        r
    }

    /// Whether no chunk is still to be sent: each one is acknowledged or abandoned.
    pub fn is_finished(&self) -> (r: bool)
        requires
            self.wf(),
        ensures
            r == self.finished_spec(),
    {
        let n = self.packets.len();
        let mut i: usize = 0;
        while i < n
            invariant
                self.wf(),
                n == self.packets@.len(),
                i <= n,
                forall|j: int| 0 <= j < i ==> !#[trigger] pending_at(self.acked@, self.retries@, j),
            decreases n - i,
        {
            if !self.acked[i] && self.retries[i] <= MAX_RETRIES {
                assert(pending_at(self.acked@, self.retries@, i as int));
                return false;
            }
            i = i + 1;
        }
        true
    }

    /// Sequence numbers of the abandoned chunks, ascending.
    pub fn abandoned(&self) -> (r: Vec<u32>)
        requires
            self.wf(),
        ensures
            r@ == self.abandoned_spec(),
    {
        let n = self.packets.len();
        let mut r: Vec<u32> = Vec::new();
        let mut i: usize = 0;
        while i < n
            invariant
                self.wf(),
                n == self.packets@.len(),
                i <= n,
                r@ == abandoned_upto(self.acked@, self.retries@, i as int),
            decreases n - i,
        {
            assert(self.packets@[i as int].packet_number == i);
            if !self.acked[i] && self.retries[i] > MAX_RETRIES {
                r.push(i as u32);
            }
            i = i + 1;
        }
        r
    }

    /// Closes a round: every chunk still pending counts one more attempt.
    /// Returns, ascending, the chunks this takes over the ceiling; they are
    /// abandoned and no longer pending.
    pub fn end_round(&mut self) -> (r: Vec<u32>)
        requires
            old(self).wf(),
        ensures
            final(self).wf(),
            final(self).packets@ == old(self).packets@,
            final(self).acked@ == old(self).acked@,
            final(self).retries@ == retries_after_round(old(self).acked@, old(self).retries@),
            r@ == exhausted_upto(old(self).acked@, old(self).retries@, old(self).packets@.len() as int),
            forall|i: int|
                0 <= i < old(self).packets@.len() ==> (r@.contains(i as u32) <==> #[trigger] at_ceiling(
                    old(self).acked@,
                    old(self).retries@,
                    i,
                )),
            forall|i: int|
                0 <= i < old(self).packets@.len() && #[trigger] at_ceiling(
                    old(self).acked@,
                    old(self).retries@,
                    i,
                ) ==> abandoned_at(final(self).acked@, final(self).retries@, i),
    {
        let n0 = self.packets.len();
        if n0 > 0 {
            assert(self.packets@[n0 - 1].packet_number == n0 - 1);
        }
        proof {
            lemma_exhausted_members(self.acked@, self.retries@, n0 as int);
        }
        let ghost old_retries = self.retries@;
        let n = self.packets.len();
        let mut r: Vec<u32> = Vec::new();
        let mut i: usize = 0;
        while i < n
            invariant
                self.wf(),
                n == self.packets@.len(),
                i <= n,
                old_retries.len() == n,
                self.packets@ == old(self).packets@,
                self.acked@ == old(self).acked@,
                old_retries == old(self).retries@,
                forall|j: int|
                    0 <= j < n ==> #[trigger] self.retries@[j] == if j < i {
                        retries_after_round(self.acked@, old_retries)[j]
                    } else {
                        old_retries[j]
                    },
                r@ == exhausted_upto(self.acked@, old_retries, i as int),
            decreases n - i,
        {
            assert(self.packets@[i as int].packet_number == i);
            if !self.acked[i] && self.retries[i] <= MAX_RETRIES {
                let count = self.retries[i] + 1;
                self.retries.set(i, count);
                if count > MAX_RETRIES {
                    r.push(i as u32);
                }
            }
            i = i + 1;
        }
        assert(self.retries@ =~= retries_after_round(old(self).acked@, old(self).retries@));
        r
    }
}

/// Taking in the same acknowledgment twice leaves the flags as taking it in once.
pub proof fn lemma_ack_idempotent(acked: Seq<bool>, seq: u32)
    ensures
        acked_after(acked_after(acked, seq), seq) == acked_after(acked, seq),
{
    if seq < acked.len() {
        assert(acked.update(seq as int, true).update(seq as int, true) =~= acked.update(
            seq as int,
            true,
        ));
    }
}

/// The pending list names exactly the chunks that are neither acknowledged
/// nor abandoned, each once and in ascending order.
pub proof fn lemma_pending_members(acked: Seq<bool>, retries: Seq<u32>, n: int)
    requires
        0 <= n <= acked.len(),
        n <= retries.len(),
        n <= u32::MAX as int + 1,
    ensures
        forall|i: int| 0 <= i < n ==> (pending_upto(acked, retries, n).contains(i as u32)
            <==> #[trigger] pending_at(acked, retries, i)),
        forall|j: int|
            0 <= j < pending_upto(acked, retries, n).len() ==> #[trigger] pending_upto(
                acked,
                retries,
                n,
            )[j] < n,
        forall|j: int, l: int|
            0 <= j < l < pending_upto(acked, retries, n).len() ==> pending_upto(acked, retries, n)[j]
                < pending_upto(acked, retries, n)[l],
    decreases n,
{
    if n > 0 {
        lemma_pending_members(acked, retries, n - 1);
        let prev = pending_upto(acked, retries, n - 1);
        let cur = pending_upto(acked, retries, n);
        assert forall|i: int| 0 <= i < n implies (cur.contains(i as u32)
            <==> #[trigger] pending_at(acked, retries, i)) by {
            if i < n - 1 {
                if prev.contains(i as u32) {
                    let j = choose|j: int| 0 <= j < prev.len() && prev[j] == i as u32;
                    if pending_at(acked, retries, n - 1) {
                        assert(cur[j] == i as u32);
                    }
                }
                if cur.contains(i as u32) {
                    let j = choose|j: int| 0 <= j < cur.len() && cur[j] == i as u32;
                    if j < prev.len() {
                        assert(prev[j] == i as u32);
                    }
                }
            } else if pending_at(acked, retries, i) {
                assert(cur[cur.len() - 1] == i as u32);
            } else if cur.contains(i as u32) {
                let j = choose|j: int| 0 <= j < cur.len() && cur[j] == i as u32;
                assert(prev[j] < n - 1);
            }
        }
    }
}

/// Retry counts after `k` rounds in which the flags stay as they are.
pub open spec fn retries_after_rounds(acked: Seq<bool>, retries: Seq<u32>, k: nat) -> Seq<u32>
    decreases k,
{
    if k == 0 {
        retries
    } else {
        retries_after_round(acked, retries_after_rounds(acked, retries, (k - 1) as nat))
    }
}

/// A round reports a chunk as exhausted exactly when it was pending at the
/// ceiling; the round leaves it abandoned.
pub proof fn lemma_exhausted_members(acked: Seq<bool>, retries: Seq<u32>, n: int)
    requires
        0 <= n <= acked.len(),
        n <= retries.len(),
        acked.len() == retries.len(),
        n <= u32::MAX as int + 1,
    ensures
        forall|i: int| 0 <= i < n ==> (exhausted_upto(acked, retries, n).contains(i as u32)
            <==> #[trigger] at_ceiling(acked, retries, i)),
        forall|i: int|
            0 <= i < n && #[trigger] at_ceiling(acked, retries, i) ==> abandoned_at(
                acked,
                retries_after_round(acked, retries),
                i,
            ),
        forall|j: int|
            0 <= j < exhausted_upto(acked, retries, n).len() ==> #[trigger] exhausted_upto(
                acked,
                retries,
                n,
            )[j] < n,
    decreases n,
{
    if n > 0 {
        lemma_exhausted_members(acked, retries, n - 1);
        let prev = exhausted_upto(acked, retries, n - 1);
        let cur = exhausted_upto(acked, retries, n);
        assert forall|i: int| 0 <= i < n implies (cur.contains(i as u32)
            <==> #[trigger] at_ceiling(acked, retries, i)) by {
            if i < n - 1 {
                if prev.contains(i as u32) {
                    let j = choose|j: int| 0 <= j < prev.len() && prev[j] == i as u32;
                    if at_ceiling(acked, retries, n - 1) {
                        assert(cur[j] == i as u32);
                    }
                }
                if cur.contains(i as u32) {
                    let j = choose|j: int| 0 <= j < cur.len() && cur[j] == i as u32;
                    if j < prev.len() {
                        assert(prev[j] == i as u32);
                    }
                }
            } else if at_ceiling(acked, retries, i) {
                assert(cur[cur.len() - 1] == i as u32);
            } else if cur.contains(i as u32) {
                let j = choose|j: int| 0 <= j < cur.len() && cur[j] == i as u32;
                assert(prev[j] < n - 1);
            }
        }
    }
}

/// A chunk that starts with no retries and is never acknowledged counts one
/// attempt per round, and after one round more than the ceiling it is
/// abandoned and no longer pending.
pub proof fn lemma_retry_ceiling(acked: Seq<bool>, retries: Seq<u32>, i: int)
    requires
        acked.len() == retries.len(),
        0 <= i < retries.len(),
        !acked[i],
        retries[i] == 0,
    ensures
        forall|k: nat|
            k <= MAX_RETRIES + 1 ==> #[trigger] retries_after_rounds(acked, retries, k)[i] == k,
        abandoned_at(acked, retries_after_rounds(acked, retries, (MAX_RETRIES + 1) as nat), i),
        !pending_at(acked, retries_after_rounds(acked, retries, (MAX_RETRIES + 1) as nat), i),
{
    assert forall|k: nat| k <= MAX_RETRIES + 1 implies #[trigger] retries_after_rounds(
        acked,
        retries,
        k,
    )[i] == k && retries_after_rounds(acked, retries, k).len() == retries.len() by {
        lemma_rounds_count(acked, retries, i, k);
    }
}

proof fn lemma_rounds_count(acked: Seq<bool>, retries: Seq<u32>, i: int, k: nat)
    requires
        acked.len() == retries.len(),
        0 <= i < retries.len(),
        !acked[i],
        retries[i] == 0,
        k <= MAX_RETRIES + 1,
    ensures
        retries_after_rounds(acked, retries, k)[i] == k,
        retries_after_rounds(acked, retries, k).len() == retries.len(),
    decreases k,
{
    if k > 0 {
        lemma_rounds_count(acked, retries, i, (k - 1) as nat);
    }
}

} // verus!

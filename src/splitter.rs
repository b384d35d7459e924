//! Partition of a file's bytes into an ordered sequence of chunks.
use vstd::prelude::*;
use crate::packet::Packet;

verus! {

/// Number of chunks of capacity `k` that hold `len` bytes: `ceil(len / k)`.
pub open spec fn chunk_count(len: int, k: int) -> int {
    if len % k == 0 {
        len / k
    } else {
        len / k + 1
    }
}

/// The bytes of `data` that chunk `i` carries when chunks hold `k` bytes.
pub open spec fn chunk_slice(data: Seq<u8>, k: int, i: int) -> Seq<u8> {
    let end = if (i + 1) * k <= data.len() { (i + 1) * k } else { data.len() as int };
    data.subrange(i * k, end)
}

/// `s` is the chunk sequence of transfer `file_id` for `data` at capacity `k`.
pub open spec fn is_split_of(s: Seq<Packet>, data: Seq<u8>, file_id: u32, k: int) -> bool {
    &&& s.len() == chunk_count(data.len() as int, k)
    &&& forall|i: int|
        0 <= i < s.len() ==> {
            &&& (#[trigger] s[i]).file_id == file_id
            &&& s[i].packet_number == i
            &&& s[i].total_packets == s.len()
            &&& s[i].payload@ == chunk_slice(data, k, i)
        }
}

/// The payloads of `s` joined in order.
pub open spec fn concat_payloads(s: Seq<Packet>) -> Seq<u8>
    decreases s.len(),
{
    if s.len() == 0 {
        Seq::empty()
    } else {
        concat_payloads(s.drop_last()) + s.last().payload@
    }
}

proof fn lemma_chunk_count_bounds(len: int, k: int)
    requires
        len >= 0,
        k > 0,
    ensures
        0 <= chunk_count(len, k) <= len,
        chunk_count(len, k) * k >= len,
        forall|i: int| 0 <= i < chunk_count(len, k) ==> #[trigger] (i * k) < len,
{
    let q = len / k;
    let r = len % k;
    assert(len == q * k + r && 0 <= r < k) by (nonlinear_arith)
        requires
            k > 0,
            q == len / k,
            r == len % k,
    ;
    assert(q >= 0 && q <= len) by (nonlinear_arith)
        requires
            k > 0,
            len >= 0,
            q == len / k,
    ;
    if r == 0 {
        assert(chunk_count(len, k) * k >= len);
        assert forall|i: int| 0 <= i < chunk_count(len, k) implies #[trigger] (i * k) < len by {
            assert(i * k <= (q - 1) * k) by (nonlinear_arith)
                requires
                    i <= q - 1,
                    k > 0,
            ;
            assert((q - 1) * k == q * k - k) by (nonlinear_arith);
        }
    } else {
        assert(q + 1 <= len) by (nonlinear_arith)
            requires
                len == q * k + r,
                r > 0,
                k > 0,
                q >= 0,
        ;
        assert((q + 1) * k == q * k + k) by (nonlinear_arith);
        assert forall|i: int| 0 <= i < chunk_count(len, k) implies #[trigger] (i * k) < len by {
            assert(i * k <= q * k) by (nonlinear_arith)
                requires
                    i <= q,
                    k > 0,
            ;
        }
    }
}

/// Splits `data` into the chunks of transfer `file_id`, in ascending order,
/// each of `capacity` bytes but the last, which holds the remainder. An empty
/// input gives no chunks.
pub fn split_into_packets(data: &[u8], file_id: u32, capacity: usize) -> (r: Vec<Packet>)
    requires
        capacity > 0,
        chunk_count(data@.len() as int, capacity as int) <= u32::MAX,
    ensures
        is_split_of(r@, data@, file_id, capacity as int),
        concat_payloads(r@) == data@,
        r@.len() == chunk_count(data@.len() as int, capacity as int),
        data@.len() == 0 ==> r@.len() == 0,
{
    let len = data.len();
    let total: usize = if len % capacity == 0 {
        len / capacity
    } else {
        len / capacity + 1
    };
    proof {
        lemma_chunk_count_bounds(len as int, capacity as int);
    }
    let total_packets = total as u32;
    let mut packets: Vec<Packet> = Vec::new();
    let mut i: usize = 0;
    while i < total
        invariant
            i <= total,
            total == chunk_count(len as int, capacity as int),
            total <= u32::MAX,
            len == data@.len(),
            capacity > 0,
            total_packets == total,
            forall|j: int| 0 <= j < total ==> #[trigger] (j * capacity) < len,
            packets@.len() == i,
            forall|j: int|
                0 <= j < i ==> {
                    &&& (#[trigger] packets@[j]).file_id == file_id
                    &&& packets@[j].packet_number == j
                    &&& packets@[j].total_packets == total
                    &&& packets@[j].payload@ == chunk_slice(data@, capacity as int, j)
                },
        decreases total - i,
    {
        assert(i * capacity < len);
        let start = i * capacity;
        assert((i + 1) * capacity == i * capacity + capacity) by (nonlinear_arith);
        let end = if len - start >= capacity {
            start + capacity
        } else {
            len
        };
        let payload = vstd::slice::slice_to_vec(vstd::slice::slice_subrange(data, start, end));
        packets.push(Packet { file_id, packet_number: i as u32, total_packets, payload });
        i = i + 1;
    }
    proof {
        lemma_split_complete(packets@, data@, file_id, capacity as int);
    }
    packets
}

proof fn lemma_prefix_concat(s: Seq<Packet>, data: Seq<u8>, file_id: u32, k: int, j: int)
    requires
        k > 0,
        is_split_of(s, data, file_id, k),
        0 <= j <= s.len(),
    ensures
        concat_payloads(s.take(j)) == data.subrange(
            0,
            if j * k <= data.len() { j * k } else { data.len() as int },
        ),
    decreases j,
{
    let len = data.len() as int;
    if j == 0 {
        assert(s.take(0) =~= Seq::<Packet>::empty());
        assert(concat_payloads(s.take(0)) =~= data.subrange(0, 0));
    } else {
        let i = j - 1;
        lemma_prefix_concat(s, data, file_id, k, i);
        lemma_chunk_count_bounds(len, k);
        assert(i * k < len);
        assert((i + 1) * k == i * k + k) by (nonlinear_arith);
        assert(s.take(j).drop_last() =~= s.take(i));
        assert(s.take(j).last() == s[i]);
        assert(data.subrange(0, i * k) + chunk_slice(data, k, i) =~= data.subrange(
            0,
            if j * k <= len { j * k } else { len },
        ));
    }
}

/// Joining the payloads of a split, in sequence order, gives back the input,
/// and the split has `ceil(len / k)` chunks (none for an empty input).
pub proof fn lemma_split_complete(s: Seq<Packet>, data: Seq<u8>, file_id: u32, k: int)
    requires
        k > 0,
        is_split_of(s, data, file_id, k),
    ensures
        concat_payloads(s) == data,
        s.len() == chunk_count(data.len() as int, k),
        data.len() == 0 ==> s.len() == 0,
{
    let len = data.len() as int;
    lemma_chunk_count_bounds(len, k);
    lemma_prefix_concat(s, data, file_id, k, s.len() as int);
    assert(s.take(s.len() as int) =~= s);
    assert(data.subrange(0, len) =~= data);
}

} // verus!

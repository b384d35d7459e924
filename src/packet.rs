//! Framing of one chunk: a 12-byte big-endian header followed by the payload.
use vstd::prelude::*;
use byteorder::{BigEndian, ByteOrder};

verus! {

/// Size of the fixed frame header: three big-endian `u32` fields.
pub const HEADER_SIZE: usize = 12;

/// The four big-endian bytes of `v`.
pub open spec fn be_bytes(v: u32) -> Seq<u8> {
    seq![(v >> 24u32) as u8, (v >> 16u32) as u8, (v >> 8u32) as u8, v as u8]
}

/// The `u32` whose big-endian bytes are the first four of `b`.
pub open spec fn be_value(b: Seq<u8>) -> u32
    recommends
        b.len() >= 4,
{
    ((b[0] as u32) << 24u32) | ((b[1] as u32) << 16u32) | ((b[2] as u32) << 8u32) | (b[3] as u32)
}

/// Reading back the bytes that were written gives the value.
pub proof fn lemma_be_value_of_bytes(v: u32)
    ensures
        be_value(be_bytes(v)) == v,
{
    let b0 = (v >> 24u32) as u8;
    let b1 = (v >> 16u32) as u8;
    let b2 = (v >> 8u32) as u8;
    let b3 = v as u8;
    assert(((b0 as u32) << 24u32) | ((b1 as u32) << 16u32) | ((b2 as u32) << 8u32) | (b3 as u32)
        == v) by (bit_vector)
        requires
            b0 == (v >> 24u32) as u8,
            b1 == (v >> 16u32) as u8,
            b2 == (v >> 8u32) as u8,
            b3 == v as u8,
    ;
}

/// Relies on byteorder's `BigEndian::read_u32`: the first four bytes of
/// `buf`, most significant first.
#[verifier::external_body]
fn read_be_u32(buf: &[u8]) -> (r: u32)
    requires
        buf@.len() >= 4,
    ensures
        r == be_value(buf@),
{
    BigEndian::read_u32(buf)
}

/// Relies on byteorder's `BigEndian::write_u32`: `n` as four bytes, most
/// significant first.
#[verifier::external_body]
fn write_be_u32(n: u32) -> (r: Vec<u8>)
    ensures
        r@ == be_bytes(n),
{
    let mut buf = vec![0u8; 4];
    BigEndian::write_u32(&mut buf, n);
    buf
}

/// The four bytes of an acknowledgment datagram for sequence number `seq`.
pub fn ack_bytes(seq: u32) -> (r: Vec<u8>)
    ensures
        r@ == be_bytes(seq),
{
    write_be_u32(seq)
}

/// The sequence number an acknowledgment datagram carries: its first four
/// bytes, or `None` when it is shorter than that.
pub fn parse_ack(data: &[u8]) -> (r: Option<u32>)
    ensures
        r == (if data@.len() >= 4 { Some(be_value(data@)) } else { None::<u32> }),
{
    if data.len() >= 4 {
        Some(read_be_u32(data))
    } else {
        None
    }
}

/// The termination datagram: the ASCII bytes of `FINISH`.
pub open spec fn finish_signal_spec() -> Seq<u8> {
    seq![70u8, 73u8, 78u8, 73u8, 83u8, 72u8]
}

/// The termination datagram the sender transmits once nothing is pending.
pub fn finish_signal() -> (r: Vec<u8>)
    ensures
        r@ == finish_signal_spec(),
{
    let mut r: Vec<u8> = Vec::new();
    r.push(70);
    r.push(73);
    r.push(78);
    r.push(73);
    r.push(83);
    r.push(72);
    assert(r@ =~= finish_signal_spec());
    r
}

/// Whether a datagram is the termination signal: its leading bytes are it.
pub fn is_finish_signal(data: &[u8]) -> (r: bool)
    ensures
        r == (data@.len() >= finish_signal_spec().len() && data@.subrange(
            0,
            finish_signal_spec().len() as int,
        ) == finish_signal_spec()),
{
    let signal = finish_signal();
    if data.len() < signal.len() {
        return false;
    }
    let mut i: usize = 0;
    while i < signal.len()
        invariant
            signal@ == finish_signal_spec(),
            data@.len() >= signal@.len(),
            i <= signal@.len(),
            forall|j: int| 0 <= j < i ==> data@[j] == signal@[j],
        decreases signal@.len() - i,
    {
        if data[i] != signal[i] {
            assert(data@.subrange(0, signal@.len() as int)[i as int] != signal@[i as int]);
            return false;
        }
        i = i + 1;
    }
    assert(data@.subrange(0, signal@.len() as int) =~= signal@);
    true
}

/// One chunk of a transfer.
#[derive(Debug, Clone)]
pub struct Packet {
    /// Identifies the transfer the chunk belongs to.
    pub file_id: u32,
    /// Zero-based position of the chunk in its transfer.
    pub packet_number: u32,
    /// Number of chunks in the transfer.
    pub total_packets: u32,
    /// The bytes of this slice of the file.
    pub payload: Vec<u8>,
}

/// Why a datagram could not be decoded as a frame.
#[derive(Debug, Clone, Copy, PartialEq, Eq)]
pub enum FrameError {
    /// Fewer bytes than the header needs.
    MalformedFrame,
}

/// The bytes of a frame with the given header fields and payload.
pub open spec fn frame_bytes(file_id: u32, packet_number: u32, total_packets: u32, payload: Seq<u8>) -> Seq<u8> {
    be_bytes(file_id) + be_bytes(packet_number) + be_bytes(total_packets) + payload
}

/// The frame that encodes `p`.
pub open spec fn encode(p: Packet) -> Seq<u8> {
    frame_bytes(p.file_id, p.packet_number, p.total_packets, p.payload@)
}

/// Whether `p` is what the frame `b` decodes to.
pub open spec fn decodes_to(b: Seq<u8>, p: Packet) -> bool {
    &&& b.len() >= HEADER_SIZE
    &&& p.file_id == be_value(b)
    &&& p.packet_number == be_value(b.subrange(4, 8))
    &&& p.total_packets == be_value(b.subrange(8, 12))
    &&& p.payload@ == b.subrange(HEADER_SIZE as int, b.len() as int)
}

impl Packet {
    /// Encodes the packet as a frame: header fields, then the payload.
    pub fn serialize(&self) -> (r: Vec<u8>)
        ensures
            r@ == encode(*self),
    {
        let mut buf = write_be_u32(self.file_id);
        let mut b1 = write_be_u32(self.packet_number);
        let mut b2 = write_be_u32(self.total_packets);
        buf.append(&mut b1);
        buf.append(&mut b2);
        let mut i: usize = 0;
        while i < self.payload.len()
            invariant
                i <= self.payload@.len(),
                buf@ == be_bytes(self.file_id) + be_bytes(self.packet_number) + be_bytes(
                    self.total_packets,
                ) + self.payload@.subrange(0, i as int),
            decreases self.payload@.len() - i,
        {
            buf.push(self.payload[i]);
            i = i + 1;
            assert(self.payload@.subrange(0, i as int) =~= self.payload@.subrange(0, i - 1).push(
                self.payload@[i - 1],
            ));
        }
        assert(self.payload@.subrange(0, i as int) =~= self.payload@);
        buf
    }

    /// Decodes a frame; every byte after the header is payload.
    pub fn deserialize(data: &[u8]) -> (r: Result<Packet, FrameError>)
        ensures
            data@.len() < HEADER_SIZE ==> r == Err::<Packet, FrameError>(FrameError::MalformedFrame),
            data@.len() >= HEADER_SIZE ==> (r matches Ok(p) && decodes_to(data@, p)),
    {
        if data.len() < HEADER_SIZE {
            return Err(FrameError::MalformedFrame);
        }
        let file_id = read_be_u32(data);
        let packet_number = read_be_u32(vstd::slice::slice_subrange(data, 4, 8));
        let total_packets = read_be_u32(vstd::slice::slice_subrange(data, 8, 12));
        let payload = vstd::slice::slice_to_vec(
            vstd::slice::slice_subrange(data, HEADER_SIZE, data.len()),
        );
        Ok(Packet { file_id, packet_number, total_packets, payload })
    }
}

/// Decoding an encoded packet gives back the same header fields and payload.
pub proof fn lemma_round_trip(p: Packet)
    ensures
        decodes_to(encode(p), p),
        forall|q: Packet|
            decodes_to(encode(p), q) ==> q.file_id == p.file_id && q.packet_number
                == p.packet_number && q.total_packets == p.total_packets && q.payload@
                == p.payload@,
{
    let b = encode(p);
    let h0 = be_bytes(p.file_id);
    let h1 = be_bytes(p.packet_number);
    let h2 = be_bytes(p.total_packets);
    assert(b.subrange(0, 4) =~= h0);
    assert(b.subrange(4, 8) =~= h1);
    assert(b.subrange(8, 12) =~= h2);
    assert(b.subrange(HEADER_SIZE as int, b.len() as int) =~= p.payload@);
    lemma_be_value_of_bytes(p.file_id);
    lemma_be_value_of_bytes(p.packet_number);
    lemma_be_value_of_bytes(p.total_packets);
    assert(be_value(b) == be_value(h0));
}

} // verus!

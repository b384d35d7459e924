use udp_file_transfer::packet::{ack_bytes, finish_signal, is_finish_signal, parse_ack};
use udp_file_transfer::{FrameError, Packet};

#[test]
fn test_packet_serialization() {
    let original = Packet {
        file_id: 1234,
        packet_number: 5,
        total_packets: 100,
        payload: vec![1, 2, 3, 4, 5],
    };
    let serialized = original.serialize();
    let deserialized = Packet::deserialize(&serialized).unwrap();
    assert_eq!(original.file_id, deserialized.file_id);
    assert_eq!(original.packet_number, deserialized.packet_number);
    assert_eq!(original.total_packets, deserialized.total_packets);
    assert_eq!(original.payload, deserialized.payload);
}

#[test]
fn serialize_writes_big_endian_header_then_payload() {
    let p = Packet {
        file_id: 0x0102_0304,
        packet_number: 0xA0B0_C0D0,
        total_packets: 7,
        payload: vec![9, 8],
    };
    assert_eq!(
        p.serialize(),
        vec![1, 2, 3, 4, 0xA0, 0xB0, 0xC0, 0xD0, 0, 0, 0, 7, 9, 8]
    );
}

#[test]
fn deserialize_reads_header_fields() {
    let bytes = [0, 0, 0x03, 0xE9, 0, 0, 0, 2, 0, 0, 1, 0, 42];
    let p = Packet::deserialize(&bytes).unwrap();
    assert_eq!(p.file_id, 1001);
    assert_eq!(p.packet_number, 2);
    assert_eq!(p.total_packets, 256);
    assert_eq!(p.payload, vec![42]);
}

#[test]
fn deserialize_header_only_gives_empty_payload() {
    let bytes = [0u8; 12];
    let p = Packet::deserialize(&bytes).unwrap();
    assert_eq!(p.file_id, 0);
    assert!(p.payload.is_empty());
}

#[test]
fn deserialize_short_frame_is_malformed() {
    let bytes = [1u8; 11];
    assert_eq!(
        Packet::deserialize(&bytes).unwrap_err(),
        FrameError::MalformedFrame
    );
    assert_eq!(
        Packet::deserialize(&[]).unwrap_err(),
        FrameError::MalformedFrame
    );
}

#[test]
fn round_trip_keeps_every_field() {
    let payload: Vec<u8> = (0..=255u8).collect();
    let p = Packet {
        file_id: u32::MAX,
        packet_number: 0,
        total_packets: 1,
        payload,
    };
    let q = Packet::deserialize(&p.serialize()).unwrap();
    assert_eq!(q.file_id, p.file_id);
    assert_eq!(q.packet_number, p.packet_number);
    assert_eq!(q.total_packets, p.total_packets);
    assert_eq!(q.payload, p.payload);
}

#[test]
fn ack_is_four_big_endian_bytes() {
    assert_eq!(ack_bytes(0x0001_0203), vec![0, 1, 2, 3]);
    assert_eq!(parse_ack(&[0, 1, 2, 3]), Some(0x0001_0203));
    assert_eq!(parse_ack(&[0, 0, 0, 7, 99, 99]), Some(7));
    assert_eq!(parse_ack(&[0, 0, 7]), None);
}

#[test]
fn finish_signal_is_recognised_by_prefix() {
    let s = finish_signal();
    assert_eq!(s, b"FINISH".to_vec());
    assert!(is_finish_signal(&s));
    assert!(is_finish_signal(b"FINISH and more"));
    assert!(!is_finish_signal(b"FINIS"));
    assert!(!is_finish_signal(b"FINISh"));
    assert!(!is_finish_signal(&ack_bytes(1)));
}

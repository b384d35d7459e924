use udp_file_transfer::packet::{ack_bytes, finish_signal};
use udp_file_transfer::receiver::{ReceiveAction, ReceiverTransfer, TransferOutcome};
use udp_file_transfer::sender::{SenderTransfer, MAX_RETRIES};
use udp_file_transfer::splitter::split_into_packets;
use udp_file_transfer::Packet;

fn file_bytes(n: usize) -> Vec<u8> {
    (0..n).map(|i| (i * 7 + 3) as u8).collect()
}

fn chunk(seq: u32, total: u32, payload: Vec<u8>) -> Packet {
    Packet {
        file_id: 9,
        packet_number: seq,
        total_packets: total,
        payload,
    }
}

#[test]
fn repeated_acknowledgment_equals_one() {
    let mut once = SenderTransfer::new(split_into_packets(&file_bytes(10), 1, 4));
    let mut twice = SenderTransfer::new(split_into_packets(&file_bytes(10), 1, 4));
    once.acknowledge(1);
    twice.acknowledge(1);
    twice.acknowledge(1);
    twice.receive_ack(&ack_bytes(1));
    assert_eq!(once.acked, twice.acked);
    assert_eq!(once.retries, twice.retries);
    assert_eq!(twice.pending_numbers(), vec![0, 2]);
}

#[test]
fn unknown_or_short_acknowledgment_changes_nothing() {
    let mut s = SenderTransfer::new(split_into_packets(&file_bytes(10), 1, 4));
    s.acknowledge(3);
    s.receive_ack(&ack_bytes(u32::MAX));
    s.receive_ack(&[0, 0, 1]);
    assert_eq!(s.acked, vec![false, false, false]);
    assert_eq!(s.pending_numbers(), vec![0, 1, 2]);
}

#[test]
fn first_arrival_wins() {
    let mut r = ReceiverTransfer::new();
    r.store(chunk(0, 2, vec![1, 1]));
    r.store(chunk(0, 2, vec![2, 2]));
    r.store(chunk(1, 2, vec![3]));
    assert_eq!(r.received.len(), 2);
    assert_eq!(r.received[&0], vec![1, 1]);
    match r.finish() {
        TransferOutcome::Complete { file_id, data } => {
            assert_eq!(file_id, 9);
            assert_eq!(data, vec![1, 1, 3]);
        }
        other => panic!("unexpected outcome {:?}", other),
    }
}

#[test]
fn missing_chunk_is_incomplete() {
    let mut r = ReceiverTransfer::new();
    r.store(chunk(2, 3, vec![1]));
    r.store(chunk(0, 3, vec![2]));
    assert_eq!(
        r.finish(),
        TransferOutcome::Incomplete {
            expected: 3,
            received: 2
        }
    );
}

#[test]
fn total_is_latched_from_first_chunk() {
    let mut r = ReceiverTransfer::new();
    r.store(chunk(0, 1, vec![4]));
    r.store(chunk(1, 2, vec![5]));
    assert_eq!(r.expected_total, Some(1));
    assert_eq!(r.file_id, Some(9));
    assert_eq!(
        r.finish(),
        TransferOutcome::Incomplete {
            expected: 1,
            received: 2
        }
    );
}

#[test]
fn more_distinct_chunks_than_total_is_incomplete() {
    let mut r = ReceiverTransfer::new();
    r.store(chunk(0, 2, vec![1]));
    r.store(chunk(1, 2, vec![2]));
    r.store(chunk(2, 2, vec![3]));
    assert_eq!(
        r.finish(),
        TransferOutcome::Incomplete {
            expected: 2,
            received: 3
        }
    );
}

#[test]
fn complete_joins_payloads_in_ascending_order() {
    let mut r = ReceiverTransfer::new();
    r.store(chunk(5, 2, vec![50, 51]));
    r.store(chunk(0, 2, vec![1]));
    r.store(chunk(5, 2, vec![99]));
    assert_eq!(r.order, vec![0, 5]);
    assert_eq!(
        r.finish(),
        TransferOutcome::Complete {
            file_id: 9,
            data: vec![1, 50, 51]
        }
    );
}

#[test]
fn arrival_order_does_not_change_the_file() {
    let mut r = ReceiverTransfer::new();
    r.store(chunk(2, 3, vec![3]));
    r.store(chunk(0, 3, vec![1]));
    r.store(chunk(1, 3, vec![2]));
    assert_eq!(
        r.finish(),
        TransferOutcome::Complete {
            file_id: 9,
            data: vec![1, 2, 3]
        }
    );
}

#[test]
fn termination_before_any_chunk_has_no_total() {
    let mut r = ReceiverTransfer::new();
    assert_eq!(r.handle_datagram(&finish_signal()), ReceiveAction::Terminate);
    assert_eq!(r.finish(), TransferOutcome::NoTotal);
}

#[test]
fn malformed_datagram_is_discarded() {
    let mut r = ReceiverTransfer::new();
    assert_eq!(r.handle_datagram(&[1, 2, 3]), ReceiveAction::Discard);
    assert_eq!(r.expected_total, None);
    assert!(r.received.is_empty());
}

#[test]
fn duplicate_datagram_is_acknowledged_again() {
    let mut r = ReceiverTransfer::new();
    let frame = chunk(1, 2, vec![8]).serialize();
    assert_eq!(
        r.handle_datagram(&frame),
        ReceiveAction::Acknowledge(vec![0, 0, 0, 1])
    );
    let other = chunk(1, 2, vec![0]).serialize();
    assert_eq!(
        r.handle_datagram(&other),
        ReceiveAction::Acknowledge(vec![0, 0, 0, 1])
    );
    assert_eq!(r.received[&1], vec![8]);
}

fn deliver(sender: &SenderTransfer, receiver: &mut ReceiverTransfer, drop_ack_for: Option<u32>) -> Vec<Vec<u8>> {
    let mut acks = Vec::new();
    for frame in sender.pending_frames() {
        match receiver.handle_datagram(&frame) {
            ReceiveAction::Acknowledge(ack) => {
                let seq = Packet::deserialize(&frame).unwrap().packet_number;
                if Some(seq) != drop_ack_for {
                    acks.push(ack);
                }
            }
            other => panic!("unexpected action {:?}", other),
        }
    }
    acks
}

#[test]
fn transfer_without_loss_reconstructs_file() {
    let data = file_bytes(10_000);
    let mut sender = SenderTransfer::new(split_into_packets(&data, 1001, 4096));
    let mut receiver = ReceiverTransfer::new();
    assert_eq!(sender.pending_numbers(), vec![0, 1, 2]);
    let acks = deliver(&sender, &mut receiver, None);
    assert_eq!(acks.len(), 3);
    for ack in &acks {
        sender.receive_ack(ack);
    }
    assert!(sender.end_round().is_empty());
    assert!(sender.is_finished());
    assert_eq!(receiver.handle_datagram(&finish_signal()), ReceiveAction::Terminate);
    assert_eq!(
        receiver.finish(),
        TransferOutcome::Complete {
            file_id: 1001,
            data
        }
    );
}

#[test]
fn lost_acknowledgment_resends_only_that_chunk() {
    let data = file_bytes(10_000);
    let mut sender = SenderTransfer::new(split_into_packets(&data, 1001, 4096));
    let mut receiver = ReceiverTransfer::new();
    for ack in deliver(&sender, &mut receiver, Some(1)) {
        sender.receive_ack(&ack);
    }
    assert!(sender.end_round().is_empty());
    assert!(!sender.is_finished());
    assert_eq!(sender.pending_numbers(), vec![1]);
    let frames = sender.pending_frames();
    assert_eq!(frames.len(), 1);
    assert_eq!(Packet::deserialize(&frames[0]).unwrap().packet_number, 1);
    for ack in deliver(&sender, &mut receiver, None) {
        sender.receive_ack(&ack);
    }
    assert!(sender.end_round().is_empty());
    assert!(sender.is_finished());
    assert_eq!(sender.retries, vec![0, 1, 0]);
    assert_eq!(receiver.received.len(), 3);
    assert_eq!(
        receiver.finish(),
        TransferOutcome::Complete {
            file_id: 1001,
            data
        }
    );
}

#[test]
fn unacknowledged_chunk_is_abandoned_after_ceiling() {
    let data = file_bytes(10_000);
    let mut sender = SenderTransfer::new(split_into_packets(&data, 1001, 4096));
    sender.acknowledge(0);
    sender.acknowledge(2);
    for round in 0..MAX_RETRIES {
        assert_eq!(sender.pending_numbers(), vec![1]);
        assert!(sender.end_round().is_empty());
        assert_eq!(sender.retries[1], round + 1);
    }
    assert_eq!(sender.pending_frames().len(), 1);
    assert_eq!(sender.end_round(), vec![1]);
    assert_eq!(sender.retries[1], MAX_RETRIES + 1);
    assert!(sender.pending_numbers().is_empty());
    assert!(sender.is_finished());
    assert_eq!(sender.abandoned(), vec![1]);
    assert!(sender.end_round().is_empty());
    assert_eq!(sender.retries[1], MAX_RETRIES + 1);
}

#[test]
fn empty_transfer_is_finished_at_once() {
    let sender = SenderTransfer::new(split_into_packets(&[], 5, 4096));
    assert!(sender.is_finished());
    assert!(sender.pending_frames().is_empty());
    assert!(sender.abandoned().is_empty());
}

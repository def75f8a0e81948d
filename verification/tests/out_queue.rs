use utp_out_queue::out_queue::{in_ack_range, Item, OutQueue, WriteError};
use utp_out_queue::packet::{Packet, PacketType};
use utp_out_queue::MAX_WINDOW_SIZE;

#[test]
fn connect_echo_close() {
    const CONNECTION_ID: u16 = 25103;

    let mut q = OutQueue::new(CONNECTION_ID, 1, None);

    // Nothing is pushed and no acknowledgement is owed: nothing to send.
    assert!(q.next().is_none());

    // The connection request carries its own identifier.
    let mut syn = Packet::syn();
    syn.set_connection_id(CONNECTION_ID);
    q.push(syn);

    let n = q.next().expect("the connection request must be offered");
    {
        let p = n.packet(&q);
        assert_eq!(p.ty(), PacketType::Syn);
        assert_eq!(p.version(), 1);
        assert_eq!(p.seq_nr(), 1);
        assert_eq!(p.ack_nr(), 0);
        assert_eq!(p.connection_id(), CONNECTION_ID);
    }
    n.sent(&mut q);

    // Sent once, nothing else queued, no acknowledgement owed.
    assert!(q.next().is_none());

    // The receive side hands us something to acknowledge.
    q.set_local_ack(123);
    let n = q.next().expect("an owed acknowledgement must be offered");
    {
        let p = n.packet(&q);
        assert_eq!(p.ty(), PacketType::State);
        assert_eq!(p.ack_nr(), 123);
        assert_eq!(p.seq_nr(), 2);
        assert_eq!(p.connection_id(), CONNECTION_ID);
    }
    n.sent(&mut q);
    assert_eq!(q.state.last_ack, Some(123));
    assert!(q.next().is_none());

    // The peer acknowledged the connection request.
    q.set_their_ack(1);
    assert!(q.is_empty());

    // One small write becomes exactly one payload-bearing packet.
    let written = q.write(b"hello world").unwrap();
    assert_eq!(written, 11);
    let n = q.next().expect("the data packet must be offered");
    {
        let p = n.packet(&q);
        assert_eq!(p.ty(), PacketType::Data);
        assert_eq!(p.payload(), &b"hello world"[..]);
        assert_eq!(p.seq_nr(), 2);
        assert_eq!(p.ack_nr(), 123);
    }
    n.sent(&mut q);
    assert!(q.next().is_none());
}

#[test]
fn push_assigns_sequential_seq_nrs_with_wraparound() {
    let mut q = OutQueue::new(7, 65535, None);
    q.push(Packet::data(b"a"));
    q.push(Packet::data(b"b"));
    q.push(Packet::data(b"c"));
    assert_eq!(q.packets[0].packet.seq_nr(), 65535);
    assert_eq!(q.packets[1].packet.seq_nr(), 0);
    assert_eq!(q.packets[2].packet.seq_nr(), 1);
    assert_eq!(q.state.seq_nr, 2);
}

#[test]
fn push_stamps_connection_id_except_on_syn() {
    let mut q = OutQueue::new(4242, 1, None);
    let mut syn = Packet::syn();
    syn.set_connection_id(9);
    q.push(syn);
    q.push(Packet::data(b"x"));
    assert_eq!(q.packets[0].packet.connection_id(), 9);
    assert_eq!(q.packets[1].packet.connection_id(), 4242);
}

#[test]
fn socket_timeout_has_a_floor_of_500ms() {
    let q = OutQueue::new(1, 1, None);
    assert_eq!(q.socket_timeout(), 500);

    let mut q = OutQueue::new(1, 1, None);
    q.rtt = 400;
    q.rtt_variance = 100;
    assert_eq!(q.socket_timeout(), 500);

    q.rtt = 600;
    q.rtt_variance = 100;
    assert_eq!(q.socket_timeout(), 700);
}

#[test]
fn ack_not_covering_front_removes_nothing() {
    let mut q = OutQueue::new(1, 5, None);
    q.push(Packet::data(b"a"));
    q.push(Packet::data(b"b"));
    q.push(Packet::data(b"c"));
    q.set_their_ack(3);
    assert_eq!(q.in_flight(), 0);
    assert_eq!(q.packets.len(), 3);
    assert_eq!(q.packets[0].packet.seq_nr(), 5);
}

#[test]
fn ack_removes_exactly_the_covered_prefix() {
    let mut q = OutQueue::new(1, 5, None);
    q.push(Packet::data(b"a"));
    q.push(Packet::data(b"b"));
    q.push(Packet::data(b"c"));
    q.set_their_ack(6);
    assert_eq!(q.packets.len(), 1);
    assert_eq!(q.packets[0].packet.seq_nr(), 7);
    assert!(!q.is_empty());
    q.set_their_ack(7);
    assert!(q.is_empty());
}

#[test]
fn ack_range_membership_handles_the_wraparound_seam() {
    // A plain, unwrapped range.
    assert!(in_ack_range(10, 20, 11));
    assert!(in_ack_range(10, 20, 20));
    assert!(!in_ack_range(10, 20, 10));
    assert!(!in_ack_range(10, 20, 21));
    // A range wrapping past the top of the sequence space.
    assert!(in_ack_range(65530, 2, 65531));
    assert!(in_ack_range(65530, 2, 0));
    assert!(in_ack_range(65530, 2, 2));
    assert!(!in_ack_range(65530, 2, 3));
    assert!(!in_ack_range(65530, 2, 65530));
}

#[test]
fn ack_of_zero_covers_the_entire_space() {
    // The pruning range's lower bound is fixed at zero, so an
    // acknowledgement of zero wraps around the whole sequence space and
    // retires everything queued.
    let mut q = OutQueue::new(1, 5, None);
    q.push(Packet::data(b"a"));
    q.push(Packet::data(b"b"));
    q.set_their_ack(0);
    assert!(q.is_empty());
}

#[test]
fn rtt_updates_only_from_entries_sent_exactly_once() {
    // An entry retired after a single send feeds the estimator.
    let mut q = OutQueue::new(1, 1, None);
    q.rtt = 1000;
    q.rtt_variance = 0;
    q.push(Packet::data(b"a"));
    let n = q.next().unwrap();
    n.sent(&mut q);
    assert_eq!(q.packets[0].num_sends, 1);
    q.set_their_ack(1);
    assert!(q.is_empty());
    // The sample is the instants' distance, a few microseconds here, so the
    // smoothed values move a step toward (nearly) zero.
    assert!(q.rtt < 1000, "rtt {} should have moved toward the sample", q.rtt);
    assert!(q.rtt >= 875);
    assert!(q.rtt_variance > 0);

    // An entry retired after two sends must not perturb the estimator.
    let mut q = OutQueue::new(1, 1, None);
    q.rtt = 1000;
    q.rtt_variance = 0;
    q.push(Packet::data(b"a"));
    let n = q.next().unwrap();
    n.sent(&mut q);
    q.packets[0].num_sends = 2;
    q.set_their_ack(1);
    assert!(q.is_empty());
    assert_eq!(q.rtt, 1000);
    assert_eq!(q.rtt_variance, 0);

    // So must one never sent at all.
    let mut q = OutQueue::new(1, 1, None);
    q.rtt = 1000;
    q.push(Packet::data(b"a"));
    q.set_their_ack(1);
    assert_eq!(q.rtt, 1000);
}

#[test]
fn write_empty_input_is_a_no_op() {
    let mut q = OutQueue::new(1, 1, None);
    assert_eq!(q.write(b"").unwrap(), 0);
    assert!(q.is_empty());
}

#[test]
fn write_signals_would_block_without_budget() {
    let mut q = OutQueue::new(1, 1, None);
    q.state.peer_window = 0;
    assert_eq!(q.write(b"x"), Err(WriteError::WouldBlock));
    assert!(q.is_empty());
}

#[test]
fn write_signals_would_block_when_no_payload_fits() {
    // A window too small to carry a non-empty payload past the header
    // charge is backpressure, not a zero-byte success.
    let mut q = OutQueue::new(1, 1, None);
    q.state.peer_window = 10;
    assert_eq!(q.write(b"hello"), Err(WriteError::WouldBlock));
    assert!(q.is_empty());

    // Exactly the header charge still fits no payload...
    let mut q = OutQueue::new(1, 1, None);
    q.state.peer_window = 20;
    assert_eq!(q.write(b"hello"), Err(WriteError::WouldBlock));

    // ...one byte more fits exactly one payload byte.
    let mut q = OutQueue::new(1, 1, None);
    q.state.peer_window = 21;
    assert_eq!(q.write(b"hello"), Ok(1));
    assert_eq!(q.packets[0].packet.payload(), &b"h"[..]);
}

#[test]
fn partial_writes_cover_the_data_exactly_once() {
    let mut q = OutQueue::new(1, 1, None);
    let data: Vec<u8> = (0..3000u32).map(|i| (i % 251) as u8).collect();

    // The initial congestion window is one maximum-sized packet, so the
    // first write can only take one packet's worth.
    let n1 = q.write(&data).unwrap();
    assert_eq!(n1, 1380);
    let n2 = q.write(&data[n1..]).unwrap();
    assert_eq!(n2, 1380);
    let n3 = q.write(&data[n1 + n2..]).unwrap();
    assert_eq!(n3, 240);
    assert_eq!(n1 + n2 + n3, data.len());

    // No byte dropped, none duplicated, in order.
    let mut reassembled: Vec<u8> = Vec::new();
    for e in &q.packets {
        assert_eq!(e.packet.ty(), PacketType::Data);
        reassembled.extend_from_slice(e.packet.payload());
    }
    assert_eq!(reassembled, data);
    assert_eq!(q.buffered(), 3000);
    assert_eq!(q.in_flight(), 0);
}

#[test]
fn writability_follows_buffered_bytes() {
    let mut q = OutQueue::new(1, 1, None);
    assert!(q.is_writable());
    q.max_window = 200_000;
    q.state.peer_window = 200_000;
    let data = vec![7u8; 70_000];
    let written = q.write(&data).unwrap();
    assert_eq!(written, 70_000);
    assert_eq!(q.buffered(), 70_000);
    assert!(70_000 >= MAX_WINDOW_SIZE);
    assert!(!q.is_writable());

    // Every fragment is capped at the maximum payload: fifty full ones and
    // the remainder.
    assert_eq!(q.packets.len(), 51);
    for e in &q.packets[..50] {
        assert_eq!(e.packet.payload().len(), 1380);
    }
    assert_eq!(q.packets[50].packet.payload().len(), 1000);
}

#[test]
fn repeated_next_without_sent_is_stable() {
    let mut q = OutQueue::new(1, 10, None);
    q.push(Packet::data(b"first"));
    q.push(Packet::data(b"second"));

    let s1 = {
        let n = q.next().unwrap();
        let p = n.packet(&q);
        (p.seq_nr(), p.payload().to_vec())
    };
    let s2 = {
        let n = q.next().unwrap();
        let p = n.packet(&q);
        (p.seq_nr(), p.payload().to_vec())
    };
    assert_eq!(s1, s2);
    assert_eq!(s1.0, 10);

    // Committing the send advances the decision to the next entry.
    let n = q.next().unwrap();
    n.sent(&mut q);
    let n = q.next().unwrap();
    let p = n.packet(&q);
    assert_eq!(p.seq_nr(), 11);
    assert_eq!(p.payload(), &b"second"[..]);
}

#[test]
fn repeated_synthesized_ack_is_stable_until_sent() {
    let mut q = OutQueue::new(77, 9, Some(3));
    // The initial acknowledgement state is owed to the peer: local and
    // last-sent acknowledgements differ.
    let a1 = {
        let n = q.next().unwrap();
        let p = n.packet(&q);
        assert_eq!(p.ty(), PacketType::State);
        (p.seq_nr(), p.ack_nr(), p.connection_id())
    };
    let a2 = {
        let n = q.next().unwrap();
        let p = n.packet(&q);
        (p.seq_nr(), p.ack_nr(), p.connection_id())
    };
    assert_eq!(a1, a2);
    assert_eq!(a1, (9, 3, 77));
    // A synthesized acknowledgement does not consume sequence space.
    assert_eq!(q.state.seq_nr, 9);

    let n = q.next().unwrap();
    n.sent(&mut q);
    assert_eq!(q.state.last_ack, Some(3));
    assert!(q.next().is_none());
}

#[test]
fn in_flight_counts_sent_unretired_entries() {
    let mut q = OutQueue::new(1, 1, None);
    q.push(Packet::data(b"a"));
    q.push(Packet::data(b"b"));
    assert_eq!(q.in_flight(), 0);
    let n = q.next().unwrap();
    n.sent(&mut q);
    assert_eq!(q.in_flight(), 1);
    let n = q.next().unwrap();
    n.sent(&mut q);
    assert_eq!(q.in_flight(), 2);
    q.set_their_ack(1);
    assert_eq!(q.in_flight(), 1);
}

#[test]
fn delay_sample_is_the_wrapping_timestamp_difference() {
    let mut q = OutQueue::new(1, 1, None);
    q.set_their_delay_at(100, 250);
    assert_eq!(q.state.their_delay, 150);
    // Our clock reading may sit below the peer's timestamp; the difference
    // wraps rather than failing.
    q.set_their_delay_at(5, 3);
    assert_eq!(q.state.their_delay, u32::MAX - 1);
}

#[test]
fn delay_from_the_clock_is_echoed_on_the_next_packet() {
    let mut q = OutQueue::new(1, 1, None);
    // A peer timestamp of zero makes the stored delay our own clock
    // reading, which sits somewhere in the first seconds of the queue's
    // life rather than near the wraparound point.
    q.set_their_delay(0);
    let echoed = q.state.their_delay;
    assert!(echoed < 60_000_000, "echoed delay {} should be a fresh reading", echoed);
    q.push(Packet::data(b"a"));
    let n = q.next().unwrap();
    let p = n.packet(&q);
    assert_eq!(p.timestamp_diff(), echoed);
}

#[test]
fn next_at_stamps_the_given_timestamp() {
    let mut q = OutQueue::new(1, 1, None);
    q.set_local_window(4096);
    q.set_their_delay_at(100, 250);
    q.push(Packet::data(b"a"));
    let n = q.next_at(777).unwrap();
    match &n.item {
        Item::Entry(i) => assert_eq!(*i, 0),
        Item::State(_) => panic!("expected the queued entry"),
    }
    let p = n.packet(&q);
    assert_eq!(p.timestamp(), 777);
    assert_eq!(p.timestamp_diff(), 150);
    assert_eq!(p.wnd_size(), 4096);
}

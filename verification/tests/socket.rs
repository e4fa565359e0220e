use utp::error::SocketError;
use utp::packet::{Encodable, Extension, ExtensionType, Packet, PacketType};
use utp::socket::{
    Response, SocketCore, SocketState, TimeoutAction, BUF_SIZE, CHUNK_SIZE, INIT_CWND,
    INITIAL_CONGESTION_TIMEOUT, MIN_CWND, MSS,
};
use utp::time::now_microseconds;

const CLIENT: u16 = 8081;

fn bound_socket() -> SocketCore<u16> {
    SocketCore::from_raw_parts(8080)
}

fn is_none(r: &Response) -> bool {
    matches!(r, Response::Nothing | Response::ProcessState)
}

fn sent(r: Response) -> Packet {
    match r {
        Response::Send(p) => p,
        _ => panic!("expected a reply"),
    }
}

#[test]
fn socket_test_handle_packet() {
    //fn test_connection_setup() {
    let initial_connection_id: u16 = rand::random::<u16>() % 60000;
    let sender_connection_id = initial_connection_id + 1;
    let mut socket = bound_socket();

    let mut packet = Packet::new();
    packet.set_wnd_size(BUF_SIZE as u32);
    packet.set_type(PacketType::Syn);
    packet.set_connection_id(initial_connection_id);

    // Do we have a response?
    let response = socket.handle_packet(&packet, CLIENT, now_microseconds());
    assert!(response.is_ok());
    let response = response.unwrap();
    assert!(!is_none(&response));

    // Is is of the correct type?
    let response = sent(response);
    assert_eq!(response.get_type(), PacketType::State);

    // Same connection id on both ends during connection establishment
    assert_eq!(response.connection_id(), packet.connection_id());

    // Response acknowledges SYN
    assert_eq!(response.ack_nr(), packet.seq_nr());

    // No payload?
    assert!(response.payload().is_empty());
    //}

    // ---------------------------------

    // fn test_connection_usage() {
    let old_packet = packet;
    let old_response = response;

    let mut packet = Packet::new();
    packet.set_type(PacketType::Data);
    packet.set_connection_id(sender_connection_id);
    packet.set_seq_nr(old_packet.seq_nr() + 1);
    packet.set_ack_nr(old_response.seq_nr());

    let response = socket.handle_packet(&packet, CLIENT, now_microseconds());
    assert!(response.is_ok());
    let response = response.unwrap();
    assert!(!is_none(&response));

    let response = sent(response);
    assert_eq!(response.get_type(), PacketType::State);

    // Sender (i.e., who the initiated connection and sent a SYN) has connection id equal to
    // initial connection id + 1
    // Receiver (i.e., who accepted connection) has connection id equal to initial connection id
    assert_eq!(response.connection_id(), initial_connection_id);
    assert_eq!(response.connection_id(), packet.connection_id() - 1);

    // Previous packets should be ack'ed
    assert_eq!(response.ack_nr(), packet.seq_nr());

    // Responses with no payload should not increase the sequence number
    assert!(response.payload().is_empty());
    assert_eq!(response.seq_nr(), old_response.seq_nr());
    // }

    //fn test_connection_teardown() {
    let old_packet = packet;
    let old_response = response;

    let mut packet = Packet::new();
    packet.set_type(PacketType::Fin);
    packet.set_connection_id(sender_connection_id);
    packet.set_seq_nr(old_packet.seq_nr() + 1);
    packet.set_ack_nr(old_response.seq_nr());

    let response = socket.handle_packet(&packet, CLIENT, now_microseconds());
    assert!(response.is_ok());
    let response = response.unwrap();
    assert!(!is_none(&response));

    let response = sent(response);

    assert_eq!(response.get_type(), PacketType::State);

    // FIN packets have no payload but the sequence number shouldn't increase
    assert_eq!(packet.seq_nr(), old_packet.seq_nr() + 1);

    // Nor should the ACK packet's sequence number
    assert_eq!(response.seq_nr(), old_response.seq_nr());

    // FIN should be acknowledged
    assert_eq!(response.ack_nr(), packet.seq_nr());

    //}
}

#[test]
fn socket_test_response_to_keepalive_ack() {
    // Boilerplate test setup
    let initial_connection_id: u16 = rand::random();
    let mut socket = bound_socket();

    // Establish connection
    let mut packet = Packet::new();
    packet.set_wnd_size(BUF_SIZE as u32);
    packet.set_type(PacketType::Syn);
    packet.set_connection_id(initial_connection_id % 60000);

    let response = socket.handle_packet(&packet, CLIENT, now_microseconds());
    assert!(response.is_ok());
    let response = response.unwrap();
    assert!(!is_none(&response));
    let response = sent(response);
    assert_eq!(response.get_type(), PacketType::State);

    let old_packet = packet;
    let old_response = response;

    // Now, send a keepalive packet
    let mut packet = Packet::new();
    packet.set_wnd_size(BUF_SIZE as u32);
    packet.set_type(PacketType::State);
    packet.set_connection_id(initial_connection_id % 60000);
    packet.set_seq_nr(old_packet.seq_nr() + 1);
    packet.set_ack_nr(old_response.seq_nr());

    let response = socket.handle_packet(&packet, CLIENT, now_microseconds());
    assert!(response.is_ok());
    let response = response.unwrap();
    assert!(is_none(&response));

    // Send a second keepalive packet, identical to the previous one
    let response = socket.handle_packet(&packet, CLIENT, now_microseconds());
    assert!(response.is_ok());
    let response = response.unwrap();
    assert!(is_none(&response));

    // Mark socket as closed
    socket.state = SocketState::Closed;
}

#[test]
fn socket_test_response_to_wrong_connection_id() {
    // Boilerplate test setup
    let initial_connection_id: u16 = rand::random::<u16>() % 60000 + 2;
    let mut socket = bound_socket();

    // Establish connection
    let mut packet = Packet::new();
    packet.set_wnd_size(BUF_SIZE as u32);
    packet.set_type(PacketType::Syn);
    packet.set_connection_id(initial_connection_id);

    let response = socket.handle_packet(&packet, CLIENT, now_microseconds());
    assert!(response.is_ok());
    let response = response.unwrap();
    assert!(!is_none(&response));
    assert_eq!(sent(response).get_type(), PacketType::State);

    // Now, disrupt connection with a packet with an incorrect connection id
    let new_connection_id = initial_connection_id.wrapping_mul(2);

    let mut packet = Packet::new();
    packet.set_wnd_size(BUF_SIZE as u32);
    packet.set_type(PacketType::State);
    packet.set_connection_id(new_connection_id);

    let response = socket.handle_packet(&packet, CLIENT, now_microseconds());
    assert!(response.is_ok());
    let response = response.unwrap();
    assert!(!is_none(&response));

    let response = sent(response);
    assert_eq!(response.get_type(), PacketType::Reset);
    assert_eq!(response.ack_nr(), packet.seq_nr());

    // Mark socket as closed
    socket.state = SocketState::Closed;
}

#[test]
fn socket_test_unordered_packets() {
    // Boilerplate test setup
    let initial_connection_id: u16 = rand::random::<u16>() % 60000;
    let mut socket = bound_socket();

    // Establish connection
    let mut packet = Packet::new();
    packet.set_wnd_size(BUF_SIZE as u32);
    packet.set_type(PacketType::Syn);
    packet.set_connection_id(initial_connection_id);

    let response = socket.handle_packet(&packet, CLIENT, now_microseconds());
    assert!(response.is_ok());
    let response = response.unwrap();
    assert!(!is_none(&response));
    let response = sent(response);
    assert_eq!(response.get_type(), PacketType::State);

    let old_packet = packet;
    let old_response = response;

    let mut window: Vec<Packet> = Vec::new();

    // Now, send a keepalive packet
    let mut packet = Packet::with_payload(&[1, 2, 3]);
    packet.set_wnd_size(BUF_SIZE as u32);
    packet.set_connection_id(initial_connection_id);
    packet.set_seq_nr(old_packet.seq_nr() + 1);
    packet.set_ack_nr(old_response.seq_nr());
    window.push(packet);

    let mut packet = Packet::with_payload(&[4, 5, 6]);
    packet.set_wnd_size(BUF_SIZE as u32);
    packet.set_connection_id(initial_connection_id);
    packet.set_seq_nr(old_packet.seq_nr() + 2);
    packet.set_ack_nr(old_response.seq_nr());
    window.push(packet);

    // Send packets in reverse order
    let response = socket.handle_packet(&window[1], CLIENT, now_microseconds());
    assert!(response.is_ok());
    let response = response.unwrap();
    assert!(!is_none(&response));
    let response = sent(response);
    assert!(response.ack_nr() != window[1].seq_nr());

    let response = socket.handle_packet(&window[0], CLIENT, now_microseconds());
    assert!(response.is_ok());
    let response = response.unwrap();
    assert!(!is_none(&response));

    // Mark socket as closed
    socket.state = SocketState::Closed;
}

#[test]
fn socket_test_sorted_buffer_insertion() {
    let mut socket = bound_socket();

    let mut packet = Packet::new();
    packet.set_seq_nr(1);

    assert!(socket.incoming_buffer.is_empty());

    socket.insert_into_buffer(packet.clone());
    assert_eq!(socket.incoming_buffer.len(), 1);

    packet.set_seq_nr(2);
    packet.set_timestamp_microseconds(128);

    socket.insert_into_buffer(packet.clone());
    assert_eq!(socket.incoming_buffer.len(), 2);
    assert_eq!(socket.incoming_buffer[1].seq_nr(), 2);
    assert_eq!(socket.incoming_buffer[1].timestamp_microseconds(), 128);

    packet.set_seq_nr(3);
    packet.set_timestamp_microseconds(256);

    socket.insert_into_buffer(packet.clone());
    assert_eq!(socket.incoming_buffer.len(), 3);
    assert_eq!(socket.incoming_buffer[2].seq_nr(), 3);
    assert_eq!(socket.incoming_buffer[2].timestamp_microseconds(), 256);

    // Replacing a packet with a more recent version doesn't work
    packet.set_seq_nr(2);
    packet.set_timestamp_microseconds(456);

    socket.insert_into_buffer(packet.clone());
    assert_eq!(socket.incoming_buffer.len(), 3);
    assert_eq!(socket.incoming_buffer[1].seq_nr(), 2);
    assert_eq!(socket.incoming_buffer[1].timestamp_microseconds(), 128);
}

#[test]
fn test_base_delay_calculation() {
    let minute_in_microseconds = 60 * 10i64.pow(6);
    let samples = vec![
        (0, 10),
        (1, 8),
        (2, 12),
        (3, 7),
        (minute_in_microseconds + 1, 11),
        (minute_in_microseconds + 2, 19),
        (minute_in_microseconds + 3, 9),
    ];
    let mut socket = bound_socket();

    for (timestamp, delay) in samples {
        socket.update_base_delay(delay, (timestamp + delay) as u32);
    }

    let expected = vec![7i64, 9i64];
    let actual = socket.base_delays.iter().cloned().collect::<Vec<_>>();
    assert_eq!(expected, actual);
    assert_eq!(socket.min_base_delay(), expected.iter().min().cloned().unwrap_or_default());
}

// ----- further scenarios of the connection's decisions -----

fn connected_socket() -> SocketCore<u16> {
    let mut socket = SocketCore::with_connection_ids(8080, 11, 10);
    let mut syn = Packet::new();
    syn.set_type(PacketType::Syn);
    syn.set_connection_id(10);
    syn.set_seq_nr(100);
    match socket.handle_packet_with(&syn, CLIENT, 5, 500) {
        Ok(Response::Send(p)) => {
            assert_eq!(p.get_type(), PacketType::State);
            assert_eq!(p.seq_nr(), 500);
            assert_eq!(p.ack_nr(), 100);
        }
        _ => panic!("a SYN is answered"),
    }
    socket
}

fn data_packet(seq_nr: u16, payload: &[u8]) -> Packet {
    let mut p = Packet::with_payload(payload);
    p.set_connection_id(11);
    p.set_seq_nr(seq_nr);
    p
}

#[test]
fn syn_takes_the_fresh_sequence_number() {
    let socket = connected_socket();
    assert_eq!(socket.state, SocketState::Connected);
    assert_eq!(socket.seq_nr, 500);
    assert_eq!(socket.ack_nr, 100);
    assert_eq!(socket.sender_connection_id, 10);
    assert_eq!(socket.receiver_connection_id, 11);
    assert_eq!(socket.peer_addr().unwrap(), CLIENT);
}

#[test]
fn out_of_order_data_gets_a_selective_ack() {
    let mut socket = connected_socket();
    // Packet 103 arrives before 101 and 102: it is stashed and reported.
    let p = data_packet(103, &[3]);
    let reply = sent(socket.handle_packet_with(&p, CLIENT, 7, 0).unwrap());
    socket.accept_packet(p);
    assert_eq!(reply.ack_nr(), 100);
    assert!(reply.extensions.is_empty());
    // 104 arrives: the reply reports 103, two past the acknowledged 100 plus one (bit 1).
    let p = data_packet(104, &[4]);
    let reply = sent(socket.handle_packet_with(&p, CLIENT, 8, 0).unwrap());
    socket.accept_packet(p);
    assert_eq!(reply.extensions.len(), 1);
    assert_eq!(reply.extensions[0].data, vec![0b0000_0010, 0, 0, 0]);
    assert_eq!(reply.header().extension(), 1);
    assert_eq!(socket.build_selective_ack(), vec![0b0000_0110, 0, 0, 0]);
    // Nothing is delivered before 101.
    assert!(socket.flush_incoming_buffer(100).is_empty());
}

#[test]
fn in_order_data_is_delivered() {
    let mut socket = connected_socket();
    let p = data_packet(101, &[1, 2, 3, 4, 5]);
    let reply = sent(socket.handle_packet_with(&p, CLIENT, 9, 0).unwrap());
    assert_eq!(reply.ack_nr(), 101);
    socket.accept_packet(p);
    assert_eq!(socket.flush_incoming_buffer(2), vec![1, 2]);
    assert_eq!(socket.pending_data, vec![3, 4, 5]);
    assert_eq!(socket.flush_incoming_buffer(10), vec![3, 4, 5]);
    assert!(socket.incoming_buffer.is_empty());
    assert_eq!(socket.last_dropped, 101);
}

#[test]
fn reset_and_unexpected_packets() {
    let mut socket = connected_socket();
    let mut p = Packet::new();
    p.set_type(PacketType::Reset);
    p.set_connection_id(11);
    assert!(matches!(socket.handle_packet_with(&p, CLIENT, 1, 0), Err(SocketError::ConnectionReset)));
    assert_eq!(socket.state, SocketState::ResetReceived);

    let mut socket = SocketCore::with_connection_ids(8080u16, 11, 10);
    socket.state = SocketState::Closed;
    let mut p = Packet::new();
    p.set_type(PacketType::Data);
    p.set_connection_id(11);
    match socket.handle_packet_with(&p, CLIENT, 1, 0) {
        Err(SocketError::Other(m)) => assert_eq!(m, "Unimplemented handling for (Closed,Data)"),
        _ => panic!("unexpected"),
    }

    let mut socket = SocketCore::with_connection_ids(8080u16, 11, 10);
    socket.state = SocketState::SynSent;
    let mut p = Packet::new();
    p.set_type(PacketType::Data);
    assert!(matches!(socket.handle_packet_with(&p, CLIENT, 1, 0), Err(SocketError::InvalidReply)));
}

#[test]
fn state_reply_completes_the_handshake() {
    let mut socket = SocketCore::with_connection_ids(8080u16, 11, 12);
    socket.state = SocketState::SynSent;
    let syn = socket.syn_packet(3);
    assert_eq!(syn.get_type(), PacketType::Syn);
    assert_eq!(syn.connection_id(), 11);
    let mut p = Packet::new();
    p.set_type(PacketType::State);
    p.set_seq_nr(77);
    p.set_ack_nr(1);
    assert!(matches!(socket.handle_packet_with(&p, CLIENT, 42, 0), Ok(Response::Nothing)));
    assert_eq!(socket.state, SocketState::Connected);
    assert_eq!(socket.seq_nr, 2);
    assert_eq!(socket.ack_nr, 77);
    assert_eq!(socket.last_acked, 1);
    assert_eq!(socket.last_acked_timestamp, 42);
}

#[test]
fn fin_acknowledged_closes() {
    let mut socket = connected_socket();
    socket.state = SocketState::FinSent;
    let mut p = Packet::new();
    p.set_type(PacketType::State);
    p.set_connection_id(11);
    p.set_ack_nr(socket.seq_nr);
    assert!(matches!(socket.handle_packet_with(&p, CLIENT, 1, 0), Ok(Response::Nothing)));
    assert_eq!(socket.state, SocketState::Closed);
    assert!(!socket.close_needed());
}

#[test]
fn receive_timeout_doubles_and_resends() {
    let mut socket = connected_socket();
    assert_eq!(socket.read_timeout(), Some(INITIAL_CONGESTION_TIMEOUT));
    assert!(matches!(socket.handle_receive_timeout(10), TimeoutAction::FastResendRequest));
    assert_eq!(socket.congestion_timeout, 2 * INITIAL_CONGESTION_TIMEOUT);
    assert_eq!(socket.cwnd, MSS);

    assert_eq!(socket.queue_data(&[1, 2, 3]).unwrap(), 3);
    let p = socket.next_unsent().unwrap();
    socket.record_sent(p);
    assert_eq!(socket.curr_window, 23);
    match socket.handle_receive_timeout(99) {
        TimeoutAction::Resend(q) => {
            assert_eq!(q.timestamp_microseconds(), 99);
            assert_eq!(q.payload(), &[1, 2, 3]);
        }
        _ => panic!("the first packet is resent"),
    }
    assert_eq!(socket.send_window[0].timestamp_microseconds(), 99);

    let mut socket = connected_socket();
    socket.state = SocketState::FinSent;
    match socket.handle_receive_timeout(5) {
        TimeoutAction::ResendFin(q) => assert_eq!(q.get_type(), PacketType::Fin),
        _ => panic!("the FIN is resent"),
    }
    let mut socket = SocketCore::with_connection_ids(0u16, 1, 2);
    assert!(matches!(socket.handle_receive_timeout(5), TimeoutAction::Nothing));
    assert_eq!(socket.read_timeout(), None);
}

#[test]
fn retries_give_up() {
    let mut socket = connected_socket();
    assert!(socket.check_retries(4).is_ok());
    assert_eq!(socket.state, SocketState::Connected);
    assert!(matches!(socket.check_retries(5), Err(SocketError::ConnectionTimedOut)));
    assert_eq!(socket.state, SocketState::Closed);
    assert!(matches!(socket.queue_data(&[1]), Err(SocketError::ConnectionClosed)));
    assert!(matches!(socket.peer_addr(), Err(SocketError::NotConnected)));
}

#[test]
fn queue_data_splits_into_chunks() {
    let mut socket = connected_socket();
    let data: Vec<u8> = (0..(2 * CHUNK_SIZE + 10)).map(|i| i as u8).collect();
    assert_eq!(socket.queue_data(&data).unwrap(), data.len());
    assert_eq!(socket.unsent_queue.len(), 3);
    assert_eq!(socket.unsent_queue[0].payload().len(), CHUNK_SIZE);
    assert_eq!(socket.unsent_queue[2].payload().len(), 10);
    assert_eq!(socket.unsent_queue[0].seq_nr(), 500);
    assert_eq!(socket.unsent_queue[2].seq_nr(), 502);
    assert_eq!(socket.seq_nr, 503);
    assert_eq!(socket.unsent_queue[1].connection_id(), 10);
    assert_eq!(socket.unsent_queue[1].get_type(), PacketType::Data);

    let mut socket = SocketCore::with_connection_ids(0u16, 1, 2);
    socket.seq_nr = u16::MAX;
    socket.queue_data(&[1]).unwrap();
    socket.queue_data(&[2]).unwrap();
    assert_eq!(socket.unsent_queue[1].seq_nr(), 0);
}

#[test]
fn acknowledgements_update_the_window_and_delays() {
    let mut socket = connected_socket();
    socket.queue_data(&[0u8; 100]).unwrap();
    socket.queue_data(&[0u8; 50]).unwrap();
    while let Some(mut p) = socket.next_unsent() {
        socket.stamp_outgoing(&mut p, 1_000);
        socket.record_sent(p);
    }
    assert_eq!(socket.curr_window, 120 + 70);
    assert_eq!(socket.max_inflight(), MIN_CWND * MSS);

    let mut ack = Packet::new();
    ack.set_type(PacketType::State);
    ack.set_ack_nr(501);
    socket.register_ack(&ack, 4_000);
    assert_eq!(socket.last_acked, 501);
    assert_eq!(socket.duplicate_ack_count, 1);
    let sample = socket.ack_sample(&ack, 4_000).unwrap();
    assert_eq!(sample.bytes_newly_acked, 190);
    assert_eq!(sample.our_delay, 3_000);
    assert_eq!(socket.base_delays.iter().cloned().collect::<Vec<_>>(), vec![3_000]);
    assert_eq!(socket.current_delays.len(), 1);
    socket.advance_send_window();
    assert!(socket.send_window.is_empty());
    assert_eq!(socket.curr_window, 0);

    socket.register_ack(&ack, 5_000);
    assert_eq!(socket.duplicate_ack_count, 2);
    assert!(socket.ack_sample(&ack, 5_000).is_none());
}

#[test]
fn congestion_timeout_follows_the_round_trip() {
    let mut socket = connected_socket();
    socket.update_congestion_timeout(100);
    // variance: 0 + (100 - 0) / 4 = 25; estimate: 0 + 100 / 8 = 12
    assert_eq!(socket.rtt_variance, 25);
    assert_eq!(socket.rtt, 12);
    assert_eq!(socket.congestion_timeout, 500);
    socket.update_congestion_timeout(4_000_000);
    assert_eq!(socket.congestion_timeout, 60_000);
    socket.rtt = 100;
    socket.rtt_variance = 10;
    socket.update_congestion_timeout(0);
    // variance: 10 + (100 - 10) / 4 = 32; estimate: 100 + (-100) / 8 = 88 (toward zero)
    assert_eq!(socket.rtt_variance, 32);
    assert_eq!(socket.rtt, 88);
    assert_eq!(socket.congestion_timeout, 500);
}

#[test]
fn congestion_window_bounds() {
    let mut socket = connected_socket();
    socket.clamp_congestion_window(1_000_000);
    assert_eq!(socket.cwnd, MIN_CWND * MSS);
    socket.curr_window = 10_000;
    socket.clamp_congestion_window(1_000_000);
    assert_eq!(socket.cwnd, 11_400);
    socket.clamp_congestion_window(5_000);
    assert_eq!(socket.cwnd, 5_000);
    socket.halve_congestion_window();
    assert_eq!(socket.cwnd, MIN_CWND * MSS);
    socket.cwnd = INIT_CWND * MSS * 4;
    socket.halve_congestion_window();
    assert_eq!(socket.cwnd, INIT_CWND * MSS * 2);
}

#[test]
fn selective_acks_name_lost_packets() {
    let mut socket = connected_socket();
    socket.queue_data(&[0u8; 10 * 4]).unwrap();
    for _ in 0..6 {
        socket.queue_data(&[1]).unwrap();
    }
    while let Some(p) = socket.next_unsent() {
        socket.record_sent(p);
    }
    // Sent 500..=506; acknowledged up to 500; received 503 and 505 (bits 1 and 3).
    let sack = Extension::new(ExtensionType::SelectiveAck, vec![0b0000_1010, 0, 0, 0]);
    assert_eq!(socket.sack_resends(&sack, 500), vec![502, 504]);
    let sack = Extension::new(ExtensionType::SelectiveAck, vec![0b0000_1110, 0, 0, 0]);
    assert_eq!(socket.sack_resends(&sack, 500), vec![501, 502]);
    let other = Extension::new(ExtensionType::Unknown(9), vec![0, 0, 0, 0]);
    assert!(socket.sack_resends(&other, 500).is_empty());

    let lost = socket.lost_packet(502).unwrap();
    assert_eq!(lost.seq_nr(), 502);
    assert!(socket.lost_packet(600).is_none());

    let mut ack = Packet::new();
    ack.set_type(PacketType::State);
    ack.set_ack_nr(500);
    socket.duplicate_ack_count = 3;
    assert!(socket.fast_resend_due(&ack));
    ack.set_sack(vec![0, 0, 0, 0]);
    assert!(!socket.fast_resend_due(&ack));
}

#[test]
fn control_packets() {
    let socket = connected_socket();
    let fin = socket.fin_packet(7);
    assert_eq!(fin.get_type(), PacketType::Fin);
    assert_eq!(fin.seq_nr(), socket.seq_nr);
    assert_eq!(fin.ack_nr(), socket.ack_nr);
    assert_eq!(fin.timestamp_microseconds(), 7);
    let req = socket.fast_resend_request_packet(9);
    assert_eq!(req.get_type(), PacketType::State);
    assert_eq!(req.connection_id(), socket.sender_connection_id);
    let mut p = data_packet(101, &[]);
    p.set_timestamp_microseconds(3);
    let reply = socket.prepare_reply(&p, PacketType::State, 10);
    assert_eq!(reply.timestamp_difference_microseconds(), 7);
    assert_eq!(reply.to_bytes().len(), 20);
}

#[test]
fn generated_identifiers_are_sequential() {
    for _ in 0..100 {
        let (r, s) = utp::util::generate_sequential_identifiers();
        assert_eq!(r as u32 + 1, s as u32);
    }
    assert_eq!(utp::util::sequential_identifiers(u16::MAX), (u16::MAX - 1, u16::MAX));
    assert_eq!(utp::util::sequential_identifiers(7), (7, 8));
    let socket = SocketCore::from_raw_parts(1u8);
    assert_eq!(socket.sender_connection_id as u32, socket.receiver_connection_id as u32 + 1);
}

#[test]
fn ordered_delivery_while_receiving() {
    let mut socket = bound_socket();
    let mut syn = Packet::new();
    syn.set_type(PacketType::Syn);
    syn.set_connection_id(500);
    let _ = socket.handle_packet(&syn, CLIENT, 1).unwrap();
    assert_eq!(socket.ack_nr, 0);

    let payloads: [&[u8]; 4] = [&[1, 2, 3], &[4], &[5, 6, 7, 8], &[9]];
    let packet = |seq_nr: u16| {
        let mut p = Packet::with_payload(payloads[seq_nr as usize - 1]);
        p.set_connection_id(501);
        p.set_seq_nr(seq_nr);
        p
    };
    let mut read = Vec::new();
    let read_all = |socket: &mut SocketCore<u16>, read: &mut Vec<u8>| loop {
        let out = socket.flush_incoming_buffer(2);
        if out.is_empty() && socket.pending_data.is_empty() {
            break;
        }
        read.extend_from_slice(&out);
    };
    // Arrivals in any order, some twice, each followed by reading what is ready.
    for seq_nr in [3u16, 1, 3, 2, 4, 4] {
        let p = packet(seq_nr);
        let _ = socket.handle_packet(&p, CLIENT, 2).unwrap();
        socket.accept_packet(p);
        read_all(&mut socket, &mut read);
    }
    assert_eq!(read, vec![1, 2, 3, 4, 5, 6, 7, 8, 9]);
    assert!(socket.incoming_buffer.is_empty());
}

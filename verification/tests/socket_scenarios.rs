use std::collections::VecDeque;
use utp::basic_packet::UtpPacket as BasicPacket;
use utp::basic_socket::{swap_bytes16, BasicError, BasicSocketCore, BASIC_BUF_SIZE};
use utp::packet::{Extension, ExtensionType, Packet, PacketType};
use utp::sack_packet::UtpPacket;
use utp::sack_socket::{SackReply, SackSocketCore, UtpSocketState, SACK_BUF_SIZE};
use utp::congestion::AckAction;
use utp::error::SocketError;
use utp::socket::{SocketCore, SocketState};

const INITIAL_CONNECTION_ID: u16 = 0x1234;

fn sack_socket() -> SackSocketCore<u8> {
    SackSocketCore::bind(0u8, 777)
}

fn sack_syn() -> UtpPacket {
    let mut packet = UtpPacket::new();
    packet.set_wnd_size(SACK_BUF_SIZE as u32);
    packet.set_type(PacketType::Syn);
    packet.header.connection_id = INITIAL_CONNECTION_ID;
    packet
}

fn sent(r: SackReply) -> Option<UtpPacket> {
    match r {
        SackReply::Send(p) => Some(p),
        _ => None,
    }
}

#[test]
fn lib_test_handle_packet() {
    let initial_connection_id = INITIAL_CONNECTION_ID;
    let sender_connection_id = initial_connection_id + 1;
    let mut socket = sack_socket();

    let packet = sack_syn();
    let sent_header = packet.header;
    let response = sent(socket.handle_packet(&packet, 10, 900));
    assert!(response.is_some());
    let response = response.unwrap();
    assert!(response.get_type() == PacketType::State);
    assert!(response.header.connection_id == sent_header.connection_id);
    assert!(response.header.ack_nr == sent_header.seq_nr);
    assert!(response.payload.is_empty());

    let old_packet = packet;
    let old_response = response;
    let mut packet = UtpPacket::new();
    packet.set_type(PacketType::Data);
    packet.header.connection_id = sender_connection_id;
    packet.header.seq_nr = old_packet.seq_nr() + 1;
    packet.header.ack_nr = old_response.header.seq_nr;
    let sent_header = packet.header;
    let response = sent(socket.handle_packet(&packet, 11, 0));
    assert!(response.is_some());
    let response = response.unwrap();
    assert!(response.get_type() == PacketType::State);
    assert!(response.connection_id() == initial_connection_id);
    assert!(response.connection_id() == sent_header.connection_id - 1);
    assert!(response.ack_nr() == sent_header.seq_nr);
    assert!(response.payload.is_empty());
    assert!(response.seq_nr() == old_response.seq_nr());

    let old_packet = packet;
    let old_response = response;
    let mut packet = UtpPacket::new();
    packet.set_type(PacketType::Fin);
    packet.header.connection_id = sender_connection_id;
    packet.header.seq_nr = old_packet.seq_nr() + 1;
    packet.header.ack_nr = old_response.header.seq_nr;
    let sent_header = packet.header;
    let response = sent(socket.handle_packet(&packet, 12, 0));
    assert!(response.is_some());
    let response = response.unwrap();
    assert!(response.get_type() == PacketType::State);
    assert!(sent_header.seq_nr == old_packet.seq_nr() + 1);
    assert!(response.header.seq_nr == old_response.header.seq_nr);
    assert!(response.header.ack_nr == sent_header.seq_nr);
}

#[test]
fn lib_test_response_to_keepalive_ack() {
    let mut socket = sack_socket();
    let packet = sack_syn();
    let response = sent(socket.handle_packet(&packet, 10, 900));
    assert!(response.is_some());
    let response = response.unwrap();
    assert!(response.get_type() == PacketType::State);

    let old_packet = packet;
    let old_response = response;
    let mut packet = UtpPacket::new();
    packet.set_wnd_size(SACK_BUF_SIZE as u32);
    packet.set_type(PacketType::State);
    packet.header.connection_id = INITIAL_CONNECTION_ID;
    packet.header.seq_nr = old_packet.seq_nr() + 1;
    packet.header.ack_nr = old_response.header.seq_nr;

    // A state packet gets no reply of its own.
    let response = sent(socket.handle_packet(&packet, 11, 0));
    assert!(response.is_none());
    let response = sent(socket.handle_packet(&packet, 12, 0));
    assert!(response.is_none());
}

#[test]
fn lib_test_response_to_wrong_connection_id() {
    let mut socket = sack_socket();
    let packet = sack_syn();
    let response = sent(socket.handle_packet(&packet, 10, 900));
    assert!(response.is_some());
    assert!(response.unwrap().get_type() == PacketType::State);

    // The identifier read in the wrong byte order.
    let new_connection_id = swap_bytes16(INITIAL_CONNECTION_ID);
    let mut packet = UtpPacket::new();
    packet.set_wnd_size(SACK_BUF_SIZE as u32);
    packet.set_type(PacketType::State);
    packet.header.connection_id = new_connection_id;

    let response = sent(socket.handle_packet(&packet, 11, 0));
    assert!(response.is_some());
    let response = response.unwrap();
    assert!(response.get_type() == PacketType::Reset);
    assert!(response.header.ack_nr == packet.header.seq_nr);
}

#[test]
fn lib_test_unordered_packets() {
    let mut socket = sack_socket();
    let packet = sack_syn();
    let response = sent(socket.handle_packet(&packet, 10, 900));
    assert!(response.is_some());
    let response = response.unwrap();
    assert!(response.get_type() == PacketType::State);

    let old_packet = packet;
    let old_response = response;
    let mut window: Vec<UtpPacket> = Vec::new();
    for (k, payload) in [(1u16, vec![1, 2, 3]), (2u16, vec![4, 5, 6])] {
        let mut packet = UtpPacket::new();
        packet.set_wnd_size(SACK_BUF_SIZE as u32);
        packet.set_type(PacketType::Data);
        packet.header.connection_id = INITIAL_CONNECTION_ID;
        packet.header.seq_nr = old_packet.seq_nr() + k;
        packet.header.ack_nr = old_response.header.seq_nr;
        packet.payload = payload;
        window.push(packet);
    }

    // Send packets in reverse order
    let response = sent(socket.handle_packet(&window[1], 11, 0));
    assert!(response.is_some());
    let response = response.unwrap();
    assert!(response.header.ack_nr != window[1].header.seq_nr);

    let response = sent(socket.handle_packet(&window[0], 12, 0));
    assert!(response.is_some());
}

#[test]
fn lib_test_sorted_buffer_insertion() {
    let mut socket = sack_socket();
    let mut packet = UtpPacket::new();
    packet.header.seq_nr = 1;
    assert!(socket.incoming_buffer.is_empty());

    socket.insert_into_buffer(packet.clone());
    assert_eq!(socket.incoming_buffer.len(), 1);

    packet.header.seq_nr = 2;
    packet.header.timestamp_microseconds = 128;
    socket.insert_into_buffer(packet.clone());
    assert_eq!(socket.incoming_buffer.len(), 2);
    assert_eq!(socket.incoming_buffer[1].header.seq_nr, 2);
    assert_eq!(socket.incoming_buffer[1].header.timestamp_microseconds, 128);

    packet.header.seq_nr = 3;
    packet.header.timestamp_microseconds = 256;
    socket.insert_into_buffer(packet.clone());
    assert_eq!(socket.incoming_buffer.len(), 3);
    assert_eq!(socket.incoming_buffer[2].header.seq_nr, 3);
    assert_eq!(socket.incoming_buffer[2].header.timestamp_microseconds, 256);

    // Replace a packet with a more recent version
    packet.header.seq_nr = 2;
    packet.header.timestamp_microseconds = 456;
    socket.insert_into_buffer(packet.clone());
    assert_eq!(socket.incoming_buffer.len(), 3);
    assert_eq!(socket.incoming_buffer[1].header.seq_nr, 2);
    assert_eq!(socket.incoming_buffer[1].header.timestamp_microseconds, 456);
}

/// Takes a packet in as the receiving side does: it is kept for delivery, then answered.
fn receive(s: &mut SackSocketCore<u8>, p: &UtpPacket, now: u32) -> Option<UtpPacket> {
    s.accept_packet(p.clone());
    sent(s.handle_packet(p, now, 0))
}

/// Reads everything that is ready in order, in reads of 64 KiB as a stream reads to the end.
fn read_ready(s: &mut SackSocketCore<u8>, out: &mut Vec<u8>) {
    while s.is_flush_ready() {
        let mut buf = vec![0u8; 64 * 1024];
        let n = s.flush_incoming_buffer(&mut buf, 0);
        out.extend_from_slice(&buf[..n]);
        if n == 0 {
            break;
        }
    }
}

/// A client connected to a server, both sockets with selective acknowledgements.
fn sack_pair() -> (SackSocketCore<u8>, SackSocketCore<u8>) {
    let mut client = SackSocketCore::bind(1u8, 100);
    let mut server = SackSocketCore::bind(2u8, 500);
    let syn = client.syn_packet(2, 1);
    server.take_source(&syn, 1);
    let reply = sent(server.handle_packet(&syn, 2, 900)).unwrap();
    assert!(client.complete_connection(&reply));
    assert_eq!(server.state, UtpSocketState::Connected);
    (client, server)
}

#[test]
fn lib_test_duplicate_packet_handling() {
    let (client, mut server) = sack_pair();
    assert_eq!(client.sender_connection_id, client.receiver_connection_id + 1);
    assert_eq!(server.receiver_connection_id, server.sender_connection_id + 1);

    let mut packet = UtpPacket::new();
    packet.set_wnd_size(SACK_BUF_SIZE as u32);
    packet.set_type(PacketType::Data);
    packet.header.connection_id = client.sender_connection_id;
    packet.header.seq_nr = client.seq_nr;
    packet.header.ack_nr = client.ack_nr;
    packet.payload = vec![1, 2, 3];

    // Two copies of the packet, with different timestamps
    let mut read = Vec::new();
    for t in [100u32, 200] {
        packet.header.timestamp_microseconds = t;
        assert!(receive(&mut server, &packet, 300).is_some());
        read_ready(&mut server, &mut read);
    }
    let mut fin = UtpPacket::new();
    fin.set_type(PacketType::Fin);
    fin.header.connection_id = client.sender_connection_id;
    fin.header.seq_nr = client.seq_nr + 1;
    assert!(receive(&mut server, &fin, 400).is_some());
    read_ready(&mut server, &mut read);

    let expected: Vec<u8> = vec![1, 2, 3];
    assert_eq!(read.len(), expected.len());
    assert_eq!(read, expected);
}

#[test]
fn test_selective_ack_response() {
    let len = 1024 * 10;
    let data: Vec<u8> = (0..len).map(|idx| idx as u8).collect();
    let (mut client, mut server) = sack_pair();
    // A window wide enough to send everything at once.
    client.cwnd = 1 << 30;

    client.queue_data(&data, 10).unwrap();
    let mut to_server: VecDeque<UtpPacket> = VecDeque::new();
    while let Some(p) = client.next_unsent() {
        to_server.push_back(p.clone());
        client.record_sent(p);
    }

    // Discard packets
    for _ in 0..3 {
        to_server.pop_front();
    }

    // Generate SACK
    let mut packet = UtpPacket::new();
    packet.header.seq_nr = server.seq_nr;
    packet.header.ack_nr = server.ack_nr - 1;
    packet.header.connection_id = server.sender_connection_id;
    packet.header.timestamp_microseconds = 1_000;
    packet.set_type(PacketType::State);
    packet.set_sack(Some(vec![12, 0, 0, 0]));
    let mut to_client: VecDeque<UtpPacket> = VecDeque::new();
    to_client.push_back(packet);

    // Expect to receive "missing" packets
    let mut read = Vec::new();
    let mut now: u32 = 2_000;
    for _ in 0..10_000 {
        if read.len() == data.len() {
            break;
        }
        now += 10;
        if let Some(p) = to_client.pop_front() {
            assert!(matches!(client.handle_packet(&p, now, 0), SackReply::ProcessState));
            client.register_state(&p, now);
            for resent in client.finish_state(&p, 100) {
                to_server.push_back(resent);
            }
        } else if let Some(p) = to_server.pop_front() {
            if let Some(reply) = receive(&mut server, &p, now) {
                to_client.push_back(reply);
            }
            read_ready(&mut server, &mut read);
        } else {
            break;
        }
    }
    assert!(!read.is_empty());
    assert_eq!(read.len(), data.len());
    assert_eq!(read, data);
}

fn basic_syn() -> BasicPacket {
    let mut packet = BasicPacket::new().wnd_size(BASIC_BUF_SIZE as u32);
    packet.set_type(PacketType::Syn);
    packet.header.connection_id = INITIAL_CONNECTION_ID;
    packet
}

#[test]
fn utp_test_handle_packet() {
    let initial_connection_id = INITIAL_CONNECTION_ID;
    let sender_connection_id = initial_connection_id + 1;
    let mut socket = BasicSocketCore::bind(0u8, 777);

    let packet = basic_syn();
    let sent = packet.header;
    let response = socket.handle_packet(&packet, 10, 900);
    assert!(response.is_some());
    let response = response.unwrap();
    assert!(response.get_type() == PacketType::State);
    assert!(response.header.connection_id == sent.connection_id);
    assert!(response.header.ack_nr == sent.seq_nr);
    assert!(response.payload.is_empty());

    let old_packet = packet;
    let old_response = response;
    let mut packet = BasicPacket::new();
    packet.set_type(PacketType::Data);
    packet.header.connection_id = sender_connection_id;
    packet.header.seq_nr = old_packet.header.seq_nr + 1;
    packet.header.ack_nr = old_response.header.seq_nr;
    let sent = packet.header;
    let response = socket.handle_packet(&packet, 11, 0);
    assert!(response.is_some());
    let response = response.unwrap();
    assert!(response.get_type() == PacketType::State);
    assert!(response.header.connection_id == initial_connection_id);
    assert!(response.header.connection_id == sent.connection_id - 1);
    assert!(response.header.ack_nr == sent.seq_nr);
    assert!(response.payload.is_empty());
    assert!(response.header.seq_nr == old_response.header.seq_nr);

    let old_packet = packet;
    let old_response = response;
    let mut packet = BasicPacket::new();
    packet.set_type(PacketType::Fin);
    packet.header.connection_id = sender_connection_id;
    packet.header.seq_nr = old_packet.header.seq_nr + 1;
    packet.header.ack_nr = old_response.header.seq_nr;
    let sent = packet.header;
    let response = socket.handle_packet(&packet, 12, 0);
    assert!(response.is_some());
    let response = response.unwrap();
    assert!(response.get_type() == PacketType::State);
    assert!(sent.seq_nr == old_packet.header.seq_nr + 1);
    assert!(response.header.seq_nr == old_response.header.seq_nr);
    assert!(response.header.ack_nr == sent.seq_nr);
}

#[test]
fn utp_test_response_to_keepalive_ack() {
    let mut socket = BasicSocketCore::bind(0u8, 777);
    let packet = basic_syn();
    let response = socket.handle_packet(&packet, 10, 900);
    assert!(response.is_some());
    let response = response.unwrap();
    assert!(response.get_type() == PacketType::State);

    let old_packet = packet;
    let old_response = response;
    let mut packet = BasicPacket::new().wnd_size(BASIC_BUF_SIZE as u32);
    packet.set_type(PacketType::State);
    packet.header.connection_id = INITIAL_CONNECTION_ID;
    packet.header.seq_nr = old_packet.header.seq_nr + 1;
    packet.header.ack_nr = old_response.header.seq_nr;

    let response = socket.handle_packet(&packet, 11, 0);
    assert!(response.is_none());
    let response = socket.handle_packet(&packet, 12, 0);
    assert!(response.is_none());
}

#[test]
fn utp_test_response_to_wrong_connection_id() {
    let mut socket = BasicSocketCore::bind(0u8, 777);
    let packet = basic_syn();
    let response = socket.handle_packet(&packet, 10, 900);
    assert!(response.is_some());
    assert!(response.unwrap().get_type() == PacketType::State);

    // The identifier read in the wrong byte order.
    let new_connection_id = swap_bytes16(INITIAL_CONNECTION_ID);
    let mut packet = BasicPacket::new().wnd_size(BASIC_BUF_SIZE as u32);
    packet.set_type(PacketType::State);
    packet.header.connection_id = new_connection_id;

    let response = socket.handle_packet(&packet, 11, 0);
    assert!(response.is_some());
    let response = response.unwrap();
    assert!(response.get_type() == PacketType::Reset);
    assert!(response.header.ack_nr == packet.header.seq_nr);
}

fn data_packet(seq_nr: u16, payload: &[u8]) -> Packet {
    let mut p = Packet::with_payload(payload);
    p.set_type(PacketType::Data);
    p.set_seq_nr(seq_nr);
    p
}

#[test]
fn ordered_delivery_of_unordered_and_duplicate_packets() {
    let mut socket: SocketCore<u8> = SocketCore::with_connection_ids(0u8, 7, 8);
    socket.ack_nr = 40;
    socket.last_dropped = 40;
    let arrivals: [(u16, &[u8]); 7] = [
        (43, &[7, 8, 9]),
        (41, &[1, 2]),
        (43, &[7, 8, 9]),
        (44, &[]),
        (42, &[3, 4, 5, 6]),
        (41, &[1, 2]),
        (45, &[10]),
    ];
    for (seq_nr, payload) in arrivals {
        socket.accept_packet(data_packet(seq_nr, payload));
    }
    assert_eq!(socket.incoming_buffer.len(), 5);
    let mut read = Vec::new();
    for _ in 0..100 {
        let out = socket.flush_incoming_buffer(2);
        if out.is_empty() && socket.incoming_buffer.is_empty() && socket.pending_data.is_empty() {
            break;
        }
        read.extend_from_slice(&out);
    }
    assert_eq!(read, vec![1, 2, 3, 4, 5, 6, 7, 8, 9, 10]);
    assert_eq!(socket.ack_nr, 45);
}

#[test]
fn read_result_after_a_flush() {
    let mut socket: SocketCore<u8> = SocketCore::with_connection_ids(0u8, 7, 8);
    assert!(matches!(socket.read_result(3), Some(Ok(3))));
    assert!(socket.read_result(0).is_none());
    socket.state = SocketState::ResetReceived;
    assert!(matches!(socket.read_result(0), Some(Err(SocketError::ConnectionReset))));
    assert!(matches!(socket.read_result(2), Some(Ok(2))));
}

#[test]
fn syn_retries_double_the_wait() {
    let mut socket: SocketCore<u8> = SocketCore::with_connection_ids(0u8, 7, 8);
    assert_eq!(socket.congestion_timeout, 500);
    socket.syn_sent();
    assert_eq!(socket.state, SocketState::SynSent);
    // Five attempts wait about 16 seconds in all.
    let mut wait = socket.congestion_timeout;
    let mut total = 0;
    for _ in 0..utp::socket::MAX_SYN_RETRIES {
        total += wait;
        wait = SocketCore::<u8>::next_syn_timeout(wait);
    }
    assert_eq!(total, 15_500);
}

#[test]
fn three_duplicate_acks_in_flight_tell_of_a_loss() {
    let mut socket: SocketCore<u8> = SocketCore::with_connection_ids(0u8, 7, 8);
    socket.duplicate_ack_count = 3;
    assert!(!socket.duplicate_loss());
    socket.send_window.push(data_packet(1, &[1]));
    assert!(socket.duplicate_loss());
    socket.duplicate_ack_count = 2;
    assert!(!socket.duplicate_loss());
}

#[test]
fn a_reset_aborts_the_basic_connection() {
    let mut p = BasicPacket::new();
    p.set_type(PacketType::Reset);
    assert_eq!(BasicSocketCore::<u8>::check_not_reset(&p.header), Err(BasicError::ConnectionReset));
    p.set_type(PacketType::Data);
    assert_eq!(BasicSocketCore::<u8>::check_not_reset(&p.header), Ok(()));
}

#[test]
fn the_sender_resends_exactly_what_the_receiver_lacks() {
    let mut receiver: SocketCore<u8> = SocketCore::with_connection_ids(0u8, 7, 8);
    for seq_nr in [3u16, 4, 6] {
        receiver.accept_packet(data_packet(seq_nr, &[seq_nr as u8]));
    }
    let sack = receiver.build_selective_ack();
    assert_eq!(sack, vec![22, 0, 0, 0]);

    let mut sender: SocketCore<u8> = SocketCore::with_connection_ids(1u8, 8, 7);
    for seq_nr in 1u16..=8 {
        sender.send_window.push(data_packet(seq_nr, &[seq_nr as u8]));
    }
    let ext = Extension::new(ExtensionType::SelectiveAck, sack);
    assert_eq!(sender.sack_resends(&ext, receiver.ack_nr), vec![1, 2, 5, 7]);
}

#[test]
fn acknowledgement_losses_step_by_step() {
    let mut sender: SocketCore<u8> = SocketCore::with_connection_ids(1u8, 8, 7);
    for seq_nr in 1u16..=8 {
        sender.send_window.push(data_packet(seq_nr, &[seq_nr as u8]));
    }
    sender.curr_window = 8 * 21;
    sender.cwnd = 10_000;
    let mut ack = Packet::new();
    ack.set_type(PacketType::State);
    ack.set_ack_nr(0);
    ack.set_sack(vec![22, 0, 0, 0]);

    let mut progress = sender.begin_ack_losses();
    assert!(!progress.loss);
    let mut resent = Vec::new();
    loop {
        let (next, action) = sender.ack_loss_step(&ack, progress);
        progress = next;
        match action {
            AckAction::Resend(seq_nr) => resent.push(seq_nr),
            AckAction::Continue => {}
            AckAction::Overflow => panic!("no overflow here"),
            AckAction::Finished => break,
        }
    }
    assert_eq!(resent, vec![1, 2, 5, 7]);
    assert!(progress.loss);
    assert_eq!(sender.cwnd, 5_000);
    assert_eq!(sender.send_window.len(), 8);

    // Three duplicate acknowledgements without a selective one ask for the next packet.
    let mut plain = Packet::new();
    plain.set_type(PacketType::State);
    plain.set_ack_nr(3);
    sender.duplicate_ack_count = 3;
    let mut progress = sender.begin_ack_losses();
    assert!(progress.loss);
    let mut resent = Vec::new();
    loop {
        let (next, action) = sender.ack_loss_step(&plain, progress);
        progress = next;
        match action {
            AckAction::Resend(seq_nr) => resent.push(seq_nr),
            AckAction::Continue => {}
            AckAction::Overflow => panic!("no overflow here"),
            AckAction::Finished => break,
        }
    }
    assert_eq!(resent, vec![4]);
    assert_eq!(sender.cwnd, 2_800);
}

#[test]
fn a_connecting_socket_tries_five_syns() {
    let tries = (0..10).filter(|&n| SocketCore::<u8>::syn_retry_due(n)).count();
    assert_eq!(tries, 5);
    assert!(SocketCore::<u8>::syn_retry_due(4));
    assert!(!SocketCore::<u8>::syn_retry_due(5));
}

#[test]
fn a_recovery_round_delivers_everything() {
    let payload = |seq_nr: u16| vec![seq_nr as u8; seq_nr as usize];
    let mut sender: SocketCore<u8> = SocketCore::with_connection_ids(1u8, 8, 7);
    for seq_nr in 1u16..=8 {
        sender.send_window.push(data_packet(seq_nr, &payload(seq_nr)));
    }
    let mut receiver: SocketCore<u8> = SocketCore::with_connection_ids(0u8, 7, 8);
    // Lost: 1, 2, 5 and 7; 3 arrives twice.
    for seq_nr in [8u16, 3, 6, 4, 3] {
        receiver.accept_packet(data_packet(seq_nr, &payload(seq_nr)));
    }
    let sack = receiver.build_selective_ack();
    let ext = Extension::new(ExtensionType::SelectiveAck, sack);
    let lost = sender.sack_resends(&ext, receiver.ack_nr);
    assert_eq!(lost, vec![1, 2, 5, 7]);
    for seq_nr in lost {
        let p = sender.lost_packet(seq_nr).unwrap();
        receiver.accept_packet(p);
    }
    let mut read = Vec::new();
    loop {
        let out = receiver.flush_incoming_buffer(5);
        if out.is_empty() && receiver.pending_data.is_empty() {
            break;
        }
        read.extend_from_slice(&out);
    }
    let expected: Vec<u8> = (1u16..=8).flat_map(payload).collect();
    assert_eq!(read, expected);
    assert!(receiver.incoming_buffer.is_empty());
}

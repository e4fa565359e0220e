use utp::basic_packet::UtpPacket as BasicPacket;
use utp::basic_socket::{copy_payload, swap_bytes16, BasicError, BasicSocketCore, BasicSocketState};
use utp::packet::PacketType;
use utp::sack_packet::UtpPacket;
use utp::sack_socket::{
    swap_bytes32, BitIterator, SackError, SackReply, SackSocketCore, UtpSocketState, SACK_BUF_SIZE,
    SACK_MSS,
};

fn basic_packet(t: PacketType, cid: u16, seq_nr: u16) -> BasicPacket {
    let mut p = BasicPacket::new();
    p.set_type(t);
    p.header.connection_id = cid;
    p.header.seq_nr = seq_nr;
    p
}

#[test]
fn basic_bind_wraps_the_sender_id() {
    let s = BasicSocketCore::bind(0u8, u16::MAX);
    assert_eq!(s.receiver_connection_id, u16::MAX);
    assert_eq!(s.sender_connection_id, 0);
    assert_eq!(s.seq_nr, 1);
    assert_eq!(s.state, BasicSocketState::New);
    let t = BasicSocketCore::bind_swapped(0u8, 0x0102);
    assert_eq!(t.receiver_connection_id, 0x0201);
    assert_eq!(t.sender_connection_id, 0x0301);
    assert_eq!(swap_bytes16(0xabcd), 0xcdab);
}

#[test]
fn basic_handshake_and_teardown() {
    let mut s = BasicSocketCore::bind(0u8, 7);
    let mut syn = basic_packet(PacketType::Syn, 40, 3);
    syn.header.timestamp_microseconds = 10;
    let reply = s.handle_packet(&syn, 15, 900).unwrap();
    assert_eq!(reply.get_type(), PacketType::State);
    assert_eq!(reply.header.ack_nr, 3);
    assert_eq!(reply.header.seq_nr, 900);
    assert_eq!(reply.header.connection_id, 40);
    assert_eq!(reply.header.timestamp_difference_microseconds, 5);
    assert_eq!(s.state, BasicSocketState::Connected);
    assert_eq!(s.receiver_connection_id, 41);

    // A data packet with a foreign connection id gets a reset and changes nothing.
    let stray = basic_packet(PacketType::Data, 99, 4);
    let reply = s.handle_packet(&stray, 16, 0).unwrap();
    assert_eq!(reply.get_type(), PacketType::Reset);
    assert_eq!(s.ack_nr, 3);

    let data = basic_packet(PacketType::Data, 41, 4);
    let reply = s.handle_packet(&data, 16, 0).unwrap();
    assert_eq!(reply.header.ack_nr, 4);
    let state = basic_packet(PacketType::State, 41, 5);
    assert!(s.handle_packet(&state, 16, 0).is_none());
    let fin = basic_packet(PacketType::Fin, 41, 6);
    let reply = s.handle_packet(&fin, 17, 0).unwrap();
    assert_eq!(reply.get_type(), PacketType::State);
    assert_eq!(s.state, BasicSocketState::Closed);
    assert_eq!(s.check_open(), Err(BasicError::Closed));
}

#[test]
fn basic_reply_timestamps_wrap() {
    let s = BasicSocketCore::bind(0u8, 1);
    let mut p = BasicPacket::new();
    p.header.timestamp_microseconds = 10;
    let reply = s.prepare_reply(&p.header, PacketType::State, 4);
    assert_eq!(reply.header.timestamp_difference_microseconds, u32::MAX - 5);
}

#[test]
fn basic_program_socket_answers() {
    let mut s = BasicSocketCore::bind_swapped(0u8, 1);
    let syn = basic_packet(PacketType::Syn, 40, 3);
    let reply = s.answer_packet(&syn, 1, 77).unwrap().unwrap();
    assert_eq!(reply.header.seq_nr, 77);
    assert_eq!(s.state, BasicSocketState::Connected);
    let state = basic_packet(PacketType::State, 0, 4);
    assert!(s.answer_packet(&state, 1, 0).unwrap().is_none());
    let fin = basic_packet(PacketType::Fin, 0, 5);
    assert!(s.answer_packet(&fin, 1, 0).unwrap().is_some());
    assert_eq!(s.state, BasicSocketState::FinReceived);
    assert_eq!(s.answer_packet(&fin, 1, 0).err(), Some(BasicError::EndOfFile));
}

#[test]
fn basic_sending_waits_for_the_acknowledgement() {
    let mut s = BasicSocketCore::bind(0u8, 1);
    let syn = s.syn_packet(1, 33);
    assert_eq!(syn.get_type(), PacketType::Syn);
    assert_eq!(s.state, BasicSocketState::SynSent);
    s.complete_connection();
    assert_eq!(s.seq_nr, 2);
    let d = s.data_packet(&[1, 2, 3], 44);
    assert_eq!(d.payload, vec![1, 2, 3]);
    assert_eq!(d.header.seq_nr, 2);
    let mut ack = BasicPacket::new();
    ack.set_type(PacketType::State);
    ack.header.ack_nr = 1;
    assert!(!s.take_data_ack(&ack.header));
    ack.header.ack_nr = 2;
    assert!(s.take_data_ack(&ack.header));
    assert_eq!(s.seq_nr, 3);
    let fin = s.fin_packet(s.sender_connection_id, true, 50);
    assert_eq!(fin.get_type(), PacketType::Fin);
    assert_eq!(fin.header.ack_nr, s.ack_nr);
}

#[test]
fn basic_payload_copy() {
    let mut datagram = vec![0u8; 20];
    datagram.extend_from_slice(&[9, 8, 7, 6, 5, 4]);
    let mut buf = [0u8; 4];
    assert_eq!(copy_payload(&datagram, 26, &mut buf), 6);
    assert_eq!(buf, [9, 8, 7, 6]);
    let mut buf = [1u8; 8];
    assert_eq!(copy_payload(&datagram, 26, &mut buf), 6);
    assert_eq!(buf, [9, 8, 7, 6, 5, 4, 1, 1]);
}

// ----- the socket with selective acknowledgements -----

fn connected() -> SackSocketCore<u8> {
    let mut s = SackSocketCore::bind(0u8, 10);
    let mut syn = UtpPacket::new();
    syn.set_type(PacketType::Syn);
    syn.header.connection_id = 10;
    syn.header.seq_nr = 100;
    match s.handle_packet(&syn, 1, 50) {
        SackReply::Send(reply) => {
            assert_eq!(reply.get_type(), PacketType::State);
            assert_eq!(reply.ack_nr(), 100);
            assert_eq!(reply.seq_nr(), 50);
        }
        _ => panic!("a SYN is answered"),
    }
    assert_eq!(s.state, UtpSocketState::Connected);
    assert_eq!(s.sender_connection_id, 10);
    assert_eq!(s.receiver_connection_id, 11);
    s
}

fn data(seq_nr: u16, payload: &[u8]) -> UtpPacket {
    let mut p = UtpPacket::new();
    p.set_type(PacketType::Data);
    p.header.connection_id = 11;
    p.header.seq_nr = seq_nr;
    p.payload = payload.to_vec();
    p
}

fn receive(s: &mut SackSocketCore<u8>, p: UtpPacket) -> SackReply {
    let shallow = p.shallow_clone();
    s.accept_packet(p);
    s.handle_packet(&shallow, 2, 0)
}

#[test]
fn sack_bit_iterator_visits_every_bit() {
    let mut it = BitIterator::new(vec![0xff, 0x01]);
    let mut bits = Vec::new();
    while let Some(b) = it.next() {
        bits.push(b);
    }
    assert_eq!(bits.len(), 16);
    assert_eq!(&bits[..9], &[1, 1, 1, 1, 1, 1, 1, 1, 1]);
    assert!(bits[9..].iter().all(|&b| b == 0));
    assert_eq!(it.next(), None);
    assert_eq!(it.next(), None);
}

#[test]
fn sack_bit_iterator_yields_the_last_bit() {
    let mut it = BitIterator::new(vec![0x80]);
    for _ in 0..7 {
        assert_eq!(it.next(), Some(0));
    }
    assert_eq!(it.next(), Some(1));
    assert_eq!(it.next(), None);
}

#[test]
fn sack_out_of_order_data_is_reported() {
    let mut s = connected();
    match receive(&mut s, data(103, &[3])) {
        SackReply::Send(reply) => {
            assert_eq!(reply.ack_nr(), 100);
            assert_eq!(reply.header.extension, 1);
            assert_eq!(reply.extensions.len(), 1);
            assert_eq!(reply.extensions[0].data, vec![2, 0, 0, 0]);
        }
        _ => panic!("data is answered"),
    }
    match receive(&mut s, data(105, &[5])) {
        SackReply::Send(reply) => assert_eq!(reply.extensions[0].data, vec![10, 0, 0, 0]),
        _ => panic!("data is answered"),
    }
    // Position 18 needs a third byte, but only one more is added and its bit 2 is set.
    assert_eq!(receive(&mut s, data(120, &[20])).is_nothing(), false);
    assert_eq!(s.build_selective_ack(), vec![10, 4, 0, 0]);
    assert_eq!(s.incoming_buffer.len(), 3);
}

trait IsNothing {
    fn is_nothing(&self) -> bool;
}

impl IsNothing for SackReply {
    fn is_nothing(&self) -> bool {
        matches!(self, SackReply::Nothing)
    }
}

#[test]
fn sack_in_order_data_is_delivered() {
    let mut s = connected();
    match receive(&mut s, data(101, &[1, 2, 3])) {
        SackReply::Send(reply) => {
            assert_eq!(reply.ack_nr(), 101);
            assert!(reply.extensions.is_empty());
        }
        _ => panic!("data is answered"),
    }
    let mut buf = [0u8; 2];
    assert!(s.is_flush_ready());
    assert_eq!(s.flush_incoming_buffer(&mut buf, 0), 2);
    assert_eq!(buf, [1, 2]);
    assert_eq!(s.pending_data, vec![3]);
    assert_eq!(s.incoming_buffer.len(), 1);
    receive(&mut s, data(102, &[4, 5, 6, 7]));
    let mut buf = [0u8; 5];
    // The pending byte goes first; its packet then leaves the buffer.
    assert_eq!(s.flush_incoming_buffer(&mut buf, 0), 1);
    assert_eq!(buf[0], 3);
    assert_eq!(s.ack_nr, 101);
    assert_eq!(s.flush_incoming_buffer(&mut buf, 0), 4);
    assert_eq!(&buf[..4], &[4, 5, 6, 7]);
    assert!(s.incoming_buffer.is_empty());
    assert_eq!(s.ack_nr, 102);
}

#[test]
fn sack_fin_ends_the_stream() {
    let mut s = connected();
    let mut fin = data(101, &[]);
    fin.set_type(PacketType::Fin);
    assert!(matches!(s.handle_packet(&fin, 3, 0), SackReply::Send(_)));
    assert_eq!(s.state, UtpSocketState::Eof);
    assert_eq!(s.check_receive(), Err(SackError::EndOfFile));
    assert_eq!(s.state, UtpSocketState::Closed);
    assert_eq!(s.check_receive(), Err(SackError::Closed));
    assert_eq!(s.queue_data(&[1], 0), Err(SackError::Closed));

    let mut s = connected();
    let mut fin = data(105, &[]);
    fin.set_type(PacketType::Fin);
    assert!(s.handle_packet(&fin, 3, 0).is_nothing());
    assert_eq!(s.state, UtpSocketState::FinReceived);
    let mut reset = data(106, &[]);
    reset.set_type(PacketType::Reset);
    assert!(s.handle_packet(&reset, 3, 0).is_nothing());
    assert_eq!(s.state, UtpSocketState::RstReceived);
}

#[test]
fn sack_wrong_connection_id_is_reset() {
    let mut s = connected();
    let mut p = data(101, &[1]);
    p.header.connection_id = 500;
    match s.handle_packet(&p, 3, 0) {
        SackReply::Send(reply) => assert_eq!(reply.get_type(), PacketType::Reset),
        _ => panic!("a reset is sent"),
    }
    assert_eq!(s.ack_nr, 100);
}

fn sending_socket(chunks: &[usize]) -> SackSocketCore<u8> {
    let mut s = connected();
    for &n in chunks {
        s.queue_data(&vec![0u8; n], 1_000).unwrap();
    }
    while let Some(p) = s.next_unsent() {
        assert!(!s.window_full(&p));
        s.record_sent(p);
    }
    s
}

fn ack(ack_nr: u16) -> UtpPacket {
    let mut p = UtpPacket::new();
    p.set_type(PacketType::State);
    p.header.connection_id = 11;
    p.header.ack_nr = ack_nr;
    p.header.timestamp_microseconds = 0x0100_0000;
    p.header.timestamp_difference_microseconds = 250_000;
    p
}

#[test]
fn sack_acknowledgement_advances_the_window() {
    let mut s = sending_socket(&[10, 20]);
    assert_eq!(s.curr_window, 70);
    assert!(matches!(s.handle_packet(&ack(51), 5, 0), SackReply::ProcessState));
    s.register_state(&ack(51), 2_000);
    assert_eq!(s.last_acked, 51);
    assert_eq!(s.duplicate_ack_count, 1);
    assert_eq!(s.base_delays, vec![(2_000, 1)]);
    assert_eq!(s.current_delays, vec![(2_000, swap_bytes32(250_000))]);
    let resent = s.finish_state(&ack(51), 100);
    assert!(resent.is_empty());
    assert_eq!(s.cwnd, 2_800);
    assert_eq!(s.rtt_variance, 62);
    assert_eq!(s.rtt, 31);
    assert_eq!(s.congestion_timeout, 500);
    assert!(s.send_window.is_empty());
    assert_eq!(s.curr_window, 0);
    assert!(s.all_acknowledged());
}

#[test]
fn sack_third_duplicate_resends() {
    let mut s = sending_socket(&[10, 20, 30]);
    for _ in 0..3 {
        s.register_state(&ack(49), 2_000);
    }
    assert_eq!(s.duplicate_ack_count, 3);
    let resent = s.finish_state(&ack(49), 100);
    assert_eq!(resent.len(), 1);
    assert_eq!(resent[0].seq_nr(), 50);
    assert_eq!(s.cwnd, SACK_MSS);
    assert_eq!(s.send_window.len(), 3);
    assert!(!s.all_acknowledged());
}

#[test]
fn sack_selective_acknowledgement_resends_lost_packets() {
    let mut s = sending_socket(&[10, 20, 30]);
    let mut a = ack(49);
    a.set_sack(Some(vec![5, 0, 0, 0]));
    s.register_state(&a, 2_000);
    let resent = s.finish_state(&a, 100);
    assert_eq!(resent.len(), 1);
    assert_eq!(resent[0].seq_nr(), 52);
    // The extension counts as a loss: the window is halved.
    assert_eq!(s.cwnd, SACK_MSS);
}

#[test]
fn sack_timeouts_and_requests() {
    let mut s = connected();
    s.handle_receive_timeout();
    assert_eq!(s.congestion_timeout, 2_000);
    assert_eq!(s.cwnd, SACK_MSS);
    s.last_acked_timestamp = 10;
    let req = s.fast_resend_request(4);
    assert_eq!(req.get_type(), PacketType::State);
    assert_eq!(req.wnd_size(), SACK_BUF_SIZE as u32);
    assert_eq!(req.header.timestamp_difference_microseconds, u32::MAX - 5);
    let data: Vec<u8> = (0..3100).map(|i| i as u8).collect();
    s.queue_data(&data, 8).unwrap();
    assert_eq!(s.unsent_queue.len(), 3);
    assert_eq!(s.unsent_queue[2].payload.len(), 100);
    assert_eq!(s.unsent_queue[1].seq_nr(), 51);
    assert_eq!(s.seq_nr, 53);
}

#[test]
fn sack_connection_setup() {
    let mut s = SackSocketCore::bind(1u8, u16::MAX);
    assert_eq!(s.sender_connection_id, 0);
    let syn = s.syn_packet(9, 5);
    assert_eq!(syn.get_type(), PacketType::Syn);
    assert_eq!(syn.connection_id(), u16::MAX);
    assert_eq!(s.connected_to, 9);
    let mut reply = UtpPacket::new();
    reply.set_type(PacketType::Data);
    assert!(!s.complete_connection(&reply));
    reply.set_type(PacketType::State);
    reply.header.seq_nr = 77;
    assert!(s.complete_connection(&reply));
    assert_eq!(s.state, UtpSocketState::Connected);
    assert_eq!(s.ack_nr, 77);
    assert_eq!(s.seq_nr, 2);
    let fin = s.fin_packet(6);
    assert_eq!(fin.get_type(), PacketType::Fin);
    assert_eq!(s.state, UtpSocketState::FinSent);
    let mut syn_in = UtpPacket::new();
    syn_in.set_type(PacketType::Syn);
    s.take_source(&syn_in, 42);
    assert_eq!(s.connected_to, 42);
}

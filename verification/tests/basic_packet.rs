use utp::basic_packet::UtpPacket;
use utp::packet::{PacketType, HEADER_SIZE};

#[test]
fn utp_test_packet_decode() {
    let buf = [0x21, 0x00, 0x41, 0xa8, 0x99, 0x2f, 0xd0, 0x2a, 0x9f, 0x4a,
               0x26, 0x21, 0x00, 0x10, 0x00, 0x00, 0x3a, 0xf2, 0x6c, 0x79];
    let pkt = UtpPacket::decode(&buf);
    assert_eq!(pkt.header.get_version(), 1);
    assert_eq!(pkt.header.get_type(), PacketType::State);
    assert_eq!(pkt.header.extension, 0);
    assert_eq!(pkt.header.connection_id, 16808);
    assert_eq!(pkt.header.timestamp_microseconds, 2570047530);
    assert_eq!(pkt.header.timestamp_difference_microseconds, 2672436769);
    assert_eq!(pkt.header.wnd_size, 2u32.pow(20));
    assert_eq!(pkt.header.seq_nr, 15090);
    assert_eq!(pkt.header.ack_nr, 27769);
    assert_eq!(pkt.len(), buf.len());
    assert!(pkt.payload.is_empty());
}

#[test]
fn utp_test_packet_encode() {
    let payload = "Hello\n".as_bytes().to_vec();
    let (timestamp, timestamp_diff): (u32, u32) = (15270793, 1707040186);
    let (connection_id, seq_nr, ack_nr): (u16, u16, u16) = (16808, 15090, 17096);
    let window_size: u32 = 1048576;
    let mut pkt = UtpPacket::new();
    pkt.set_type(PacketType::Data);
    pkt.header.timestamp_microseconds = timestamp;
    pkt.header.timestamp_difference_microseconds = timestamp_diff;
    pkt.header.connection_id = connection_id;
    pkt.header.seq_nr = seq_nr;
    pkt.header.ack_nr = ack_nr;
    pkt.header.wnd_size = window_size;
    pkt.payload = payload.clone();
    let header = pkt.header;
    let buf: &[u8] = &[0x01, 0x00, 0x41, 0xa8, 0x00, 0xe9, 0x03, 0x89,
                       0x65, 0xbf, 0x5d, 0xba, 0x00, 0x10, 0x00, 0x00,
                       0x3a, 0xf2, 0x42, 0xc8, 0x48, 0x65, 0x6c, 0x6c,
                       0x6f, 0x0a];

    assert_eq!(pkt.len(), buf.len());
    assert_eq!(pkt.len(), HEADER_SIZE + payload.len());
    assert_eq!(pkt.payload, payload);
    assert_eq!(header.get_version(), 1);
    assert_eq!(header.get_type(), PacketType::Data);
    assert_eq!(header.extension, 0);
    assert_eq!(header.connection_id, connection_id);
    assert_eq!(header.seq_nr, seq_nr);
    assert_eq!(header.ack_nr, ack_nr);
    assert_eq!(header.wnd_size, window_size);
    assert_eq!(header.timestamp_microseconds, timestamp);
    assert_eq!(header.timestamp_difference_microseconds, timestamp_diff);
    assert_eq!(pkt.bytes(), buf.to_vec());
}

#[test]
fn utp_test_reversible() {
    let buf: &[u8] = &[0x01, 0x00, 0x41, 0xa8, 0x00, 0xe9, 0x03, 0x89,
                       0x65, 0xbf, 0x5d, 0xba, 0x00, 0x10, 0x00, 0x00,
                       0x3a, 0xf2, 0x42, 0xc8, 0x48, 0x65, 0x6c, 0x6c,
                       0x6f, 0x0a];
    assert_eq!(UtpPacket::decode(buf).bytes().as_slice(), buf);
}

#[test]
fn torresmo_test_packet_decode() {
    let buf = [0x21, 0x00, 0x41, 0xa8, 0x99, 0x2f, 0xd0, 0x2a, 0x9f, 0x4a,
               0x26, 0x21, 0x00, 0x10, 0x00, 0x00, 0x3a, 0xf2, 0x6c, 0x79];
    let pkt = UtpPacket::decode(&buf);
    assert_eq!(pkt.header.get_version(), 1);
    assert_eq!(pkt.header.get_type(), PacketType::State);
    assert_eq!(pkt.header.extension, 0);
    assert_eq!(pkt.header.connection_id, 16808);
    assert_eq!(pkt.header.timestamp_microseconds, 2570047530);
    assert_eq!(pkt.header.timestamp_difference_microseconds, 2672436769);
    assert_eq!(pkt.header.wnd_size, 2u32.pow(20));
    assert_eq!(pkt.header.seq_nr, 15090);
    assert_eq!(pkt.header.ack_nr, 27769);
    assert_eq!(pkt.len(), buf.len());
    assert!(pkt.payload.is_empty());
}

#[test]
fn torresmo_test_packet_encode() {
    let payload = "Hello\n".as_bytes().to_vec();
    let (timestamp, timestamp_diff): (u32, u32) = (15270793, 1707040186);
    let (connection_id, seq_nr, ack_nr): (u16, u16, u16) = (16808, 15090, 17096);
    let window_size: u32 = 1048576;
    let mut pkt = UtpPacket::new();
    pkt.set_type(PacketType::Data);
    pkt.header.timestamp_microseconds = timestamp;
    pkt.header.timestamp_difference_microseconds = timestamp_diff;
    pkt.header.connection_id = connection_id;
    pkt.header.seq_nr = seq_nr;
    pkt.header.ack_nr = ack_nr;
    pkt.header.wnd_size = window_size;
    pkt.payload = payload.clone();
    let header = pkt.header;
    let buf: &[u8] = &[0x01, 0x00, 0x41, 0xa8, 0x00, 0xe9, 0x03, 0x89,
                       0x65, 0xbf, 0x5d, 0xba, 0x00, 0x10, 0x00, 0x00,
                       0x3a, 0xf2, 0x42, 0xc8, 0x48, 0x65, 0x6c, 0x6c,
                       0x6f, 0x0a];

    assert_eq!(pkt.len(), buf.len());
    assert_eq!(pkt.len(), HEADER_SIZE + payload.len());
    assert_eq!(pkt.payload, payload);
    assert_eq!(header.get_version(), 1);
    assert_eq!(header.get_type(), PacketType::Data);
    assert_eq!(header.extension, 0);
    assert_eq!(header.connection_id, connection_id);
    assert_eq!(header.seq_nr, seq_nr);
    assert_eq!(header.ack_nr, ack_nr);
    assert_eq!(header.wnd_size, window_size);
    assert_eq!(header.timestamp_microseconds, timestamp);
    assert_eq!(header.timestamp_difference_microseconds, timestamp_diff);
    assert_eq!(pkt.bytes(), buf.to_vec());
}

#[test]
fn torresmo_test_reversible() {
    let buf: &[u8] = &[0x01, 0x00, 0x41, 0xa8, 0x00, 0xe9, 0x03, 0x89,
                       0x65, 0xbf, 0x5d, 0xba, 0x00, 0x10, 0x00, 0x00,
                       0x3a, 0xf2, 0x42, 0xc8, 0x48, 0x65, 0x6c, 0x6c,
                       0x6f, 0x0a];
    assert_eq!(UtpPacket::decode(buf).bytes().as_slice(), buf);
}

#[test]
fn basic_decode_keeps_unchecked_fields() {
    // Version 2, type 7: decoding takes the header as it stands
    let mut buf = vec![0x72, 0x05];
    buf.extend_from_slice(&[0u8; 18]);
    buf.extend_from_slice(&[1, 2, 3]);
    let pkt = UtpPacket::decode(&buf);
    assert_eq!(pkt.header.get_version(), 2);
    assert_eq!(pkt.header.type_ver >> 4, 7);
    assert_eq!(pkt.header.extension, 5);
    assert_eq!(pkt.payload, vec![1, 2, 3]);
    assert_eq!(pkt.bytes(), buf);
}

#[test]
fn basic_wnd_size_builds_a_copy() {
    let mut pkt = UtpPacket::new();
    pkt.payload = vec![7, 8];
    let other = pkt.wnd_size(1500);
    assert_eq!(other.header.wnd_size, 1500);
    assert_eq!(pkt.header.wnd_size, 0);
    assert_eq!(other.payload, vec![7, 8]);
    assert_eq!(&other.bytes()[12..16], &[0, 0, 0x05, 0xdc]);
}

#[test]
fn basic_set_type_keeps_the_version() {
    let mut pkt = UtpPacket::new();
    pkt.header.type_ver = 0x03;
    pkt.set_type(PacketType::Syn);
    assert_eq!(pkt.header.type_ver, 0x43);
    assert_eq!(pkt.get_type(), PacketType::Syn);
    let copy = pkt.clone();
    assert_eq!(copy.bytes(), pkt.bytes());
}

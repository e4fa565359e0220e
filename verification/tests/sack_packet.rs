use utp::packet::{PacketType, HEADER_SIZE};
use utp::sack_packet::{UtpExtensionType, UtpPacket};

#[test]
fn lib_test_packet_decode() {
    let buf = [0x21, 0x00, 0x41, 0xa8, 0x99, 0x2f, 0xd0, 0x2a, 0x9f, 0x4a,
               0x26, 0x21, 0x00, 0x10, 0x00, 0x00, 0x3a, 0xf2, 0x6c, 0x79];
    let pkt = UtpPacket::decode(&buf);
    assert_eq!(pkt.header.get_version(), 1);
    assert_eq!(pkt.header.get_type(), PacketType::State);
    assert_eq!(pkt.header.extension, 0);
    assert_eq!(pkt.connection_id(), 16808);
    assert_eq!(pkt.header.timestamp_microseconds, 2570047530);
    assert_eq!(pkt.header.timestamp_difference_microseconds, 2672436769);
    assert_eq!(pkt.header.wnd_size, 2u32.pow(20));
    assert_eq!(pkt.seq_nr(), 15090);
    assert_eq!(pkt.ack_nr(), 27769);
    assert_eq!(pkt.len(), buf.len());
    assert!(pkt.payload.is_empty());
}

#[test]
fn lib_test_decode_packet_with_extension() {
    let buf = [0x21, 0x01, 0x41, 0xa7, 0x00, 0x00, 0x00, 0x00, 0x00, 0x00,
               0x00, 0x00, 0x00, 0x00, 0x05, 0xdc, 0xab, 0x53, 0x3a, 0xf5,
               0x00, 0x04, 0x00, 0x00, 0x00, 0x00];
    let packet = UtpPacket::decode(&buf);
    assert_eq!(packet.header.get_version(), 1);
    assert_eq!(packet.header.get_type(), PacketType::State);
    assert_eq!(packet.header.extension, 1);
    assert_eq!(packet.connection_id(), 16807);
    assert_eq!(packet.header.timestamp_microseconds, 0);
    assert_eq!(packet.header.timestamp_difference_microseconds, 0);
    assert_eq!(packet.header.wnd_size, 1500);
    assert_eq!(packet.seq_nr(), 43859);
    assert_eq!(packet.ack_nr(), 15093);
    assert_eq!(packet.len(), buf.len());
    assert!(packet.payload.is_empty());
    assert!(packet.extensions.len() == 1);
    assert!(packet.extensions[0].ty == UtpExtensionType::SelectiveAckExtension);
    assert!(packet.extensions[0].data == vec!(0, 0, 0, 0));
    assert!(packet.extensions[0].len() == 1 + packet.extensions[0].data.len());
    assert!(packet.extensions[0].len() == 5);
}

#[test]
fn lib_test_decode_packet_with_unknown_extensions() {
    let buf = [0x21, 0x01, 0x41, 0xa7, 0x00, 0x00, 0x00, 0x00, 0x00, 0x00,
               0x00, 0x00, 0x00, 0x00, 0x05, 0xdc, 0xab, 0x53, 0x3a, 0xf5,
               0xff, 0x04, 0x00, 0x00, 0x00, 0x00, // Imaginary extension
               0x00, 0x04, 0x00, 0x00, 0x00, 0x00];
    let packet = UtpPacket::decode(&buf);
    assert_eq!(packet.header.get_version(), 1);
    assert_eq!(packet.header.get_type(), PacketType::State);
    assert_eq!(packet.header.extension, 1);
    assert_eq!(packet.connection_id(), 16807);
    assert_eq!(packet.header.timestamp_microseconds, 0);
    assert_eq!(packet.header.timestamp_difference_microseconds, 0);
    assert_eq!(packet.header.wnd_size, 1500);
    assert_eq!(packet.seq_nr(), 43859);
    assert_eq!(packet.ack_nr(), 15093);
    assert!(packet.payload.is_empty());
    assert!(packet.extensions.len() == 1);
    assert!(packet.extensions[0].ty == UtpExtensionType::SelectiveAckExtension);
    assert!(packet.extensions[0].data == vec!(0, 0, 0, 0));
    assert!(packet.extensions[0].len() == 1 + packet.extensions[0].data.len());
    assert!(packet.extensions[0].len() == 5);
}

#[test]
fn lib_test_packet_encode() {
    let payload = "Hello\n".as_bytes().to_vec();
    let (timestamp, timestamp_diff): (u32, u32) = (15270793, 1707040186);
    let (connection_id, seq_nr, ack_nr): (u16, u16, u16) = (16808, 15090, 17096);
    let window_size: u32 = 1048576;
    let mut pkt = UtpPacket::new();
    pkt.set_type(PacketType::Data);
    pkt.header.timestamp_microseconds = timestamp;
    pkt.header.timestamp_difference_microseconds = timestamp_diff;
    pkt.header.connection_id = connection_id;
    pkt.header.seq_nr = seq_nr;
    pkt.header.ack_nr = ack_nr;
    pkt.header.wnd_size = window_size;
    pkt.payload = payload.clone();
    let header = pkt.header;
    let buf: &[u8] = &[0x01, 0x00, 0x41, 0xa8, 0x00, 0xe9, 0x03, 0x89,
                       0x65, 0xbf, 0x5d, 0xba, 0x00, 0x10, 0x00, 0x00,
                       0x3a, 0xf2, 0x42, 0xc8, 0x48, 0x65, 0x6c, 0x6c,
                       0x6f, 0x0a];

    assert_eq!(pkt.len(), buf.len());
    assert_eq!(pkt.len(), HEADER_SIZE + payload.len());
    assert_eq!(pkt.payload, payload);
    assert_eq!(header.get_version(), 1);
    assert_eq!(header.get_type(), PacketType::Data);
    assert_eq!(header.extension, 0);
    assert_eq!(header.connection_id, connection_id);
    assert_eq!(header.seq_nr, seq_nr);
    assert_eq!(header.ack_nr, ack_nr);
    assert_eq!(header.wnd_size, window_size);
    assert_eq!(header.timestamp_microseconds, timestamp);
    assert_eq!(header.timestamp_difference_microseconds, timestamp_diff);
    assert_eq!(pkt.bytes(), buf.to_vec());
}

#[test]
fn lib_test_reversible() {
    let buf: &[u8] = &[0x01, 0x00, 0x41, 0xa8, 0x00, 0xe9, 0x03, 0x89,
                       0x65, 0xbf, 0x5d, 0xba, 0x00, 0x10, 0x00, 0x00,
                       0x3a, 0xf2, 0x42, 0xc8, 0x48, 0x65, 0x6c, 0x6c,
                       0x6f, 0x0a];
    assert_eq!(UtpPacket::decode(buf).bytes().as_slice(), buf);
}

#[test]
fn sack_set_sack_chains_extensions() {
    let mut pkt = UtpPacket::new();
    pkt.set_sack(Some(vec![1, 2, 3, 4]));
    pkt.set_sack(Some(vec![5, 6, 7, 8, 9, 10, 11, 12]));
    assert_eq!(pkt.header.extension, 1);
    assert_eq!(pkt.extensions.len(), 2);
    let bytes = pkt.bytes();
    assert_eq!(bytes.len(), pkt.len());
    assert_eq!(&bytes[HEADER_SIZE..], &[1, 4, 1, 2, 3, 4, 0, 8, 5, 6, 7, 8, 9, 10, 11, 12]);
    pkt.set_sack(None);
    assert_eq!(pkt.header.extension, 0);
    assert!(pkt.extensions.is_empty());
    assert_eq!(pkt.len(), HEADER_SIZE);
}

#[test]
fn sack_decode_skips_unknown_first_extension() {
    // An unknown extension first, then nothing: its data is not kept and the walk ends past it.
    let mut buf = vec![0x21, 0x05];
    buf.extend_from_slice(&[0u8; 18]);
    buf.extend_from_slice(&[0x00, 0x02, 0xaa, 0xbb]);
    let pkt = UtpPacket::decode(&buf);
    assert!(pkt.extensions.is_empty());
    assert!(pkt.payload.is_empty());
}

#[test]
fn sack_decode_payload_comes_from_where_the_walk_stops() {
    // One selective acknowledgement of 4 bytes at 20: the walk goes on at 20 + 26 = 46, so
    // a payload is kept only from there.
    let mut buf = vec![0x01, 0x01];
    buf.extend_from_slice(&[0u8; 18]);
    buf.extend_from_slice(&[0x00, 0x04, 1, 1, 1, 1]);
    buf.extend_from_slice(&[0u8; 20]);
    buf.extend_from_slice(&[7, 8, 9]);
    let pkt = UtpPacket::decode(&buf);
    assert_eq!(pkt.extensions.len(), 1);
    assert_eq!(pkt.extensions[0].data, vec![1, 1, 1, 1]);
    assert_eq!(pkt.payload, vec![7, 8, 9]);
}

#[test]
fn sack_getters_and_setters() {
    let mut pkt = UtpPacket::new();
    pkt.header.seq_nr = 9;
    pkt.header.ack_nr = 8;
    pkt.header.connection_id = 7;
    pkt.set_wnd_size(1024);
    assert_eq!((pkt.seq_nr(), pkt.ack_nr(), pkt.connection_id(), pkt.wnd_size()), (9, 8, 7, 1024));
    assert_eq!(pkt.get_type(), PacketType::Data);
    pkt.payload = vec![1, 2, 3];
    pkt.set_sack(Some(vec![0, 0, 0, 0]));
    let shallow = pkt.shallow_clone();
    assert!(shallow.payload.is_empty());
    assert_eq!(shallow.extensions.len(), 1);
    assert_eq!(shallow.header.wnd_size, 1024);
    let full = pkt.clone();
    assert_eq!(full.bytes(), pkt.bytes());
    assert_eq!(pkt.extensions[0].to_bytes(), vec![4, 0, 0, 0, 0]);
}

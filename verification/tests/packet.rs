use quickcheck::{QuickCheck, TestResult};
use utp::packet::{Decodable, Encodable, Extension, ExtensionType, Packet, PacketType, HEADER_SIZE};
use utp::error::ParseError;

#[test]
fn packet_test_packet_decode() {
    let buf = [0x21, 0x00, 0x41, 0xa8, 0x99, 0x2f, 0xd0, 0x2a, 0x9f, 0x4a,
               0x26, 0x21, 0x00, 0x10, 0x00, 0x00, 0x3a, 0xf2, 0x6c, 0x79];
    let pkt = Packet::from_bytes(&buf);
    assert!(pkt.is_ok());
    let pkt = pkt.unwrap();
    assert_eq!(pkt.header().get_version(), 1);
    assert_eq!(pkt.header().get_type(), PacketType::State);
    assert_eq!(pkt.header().extension(), 0);
    assert_eq!(pkt.connection_id(), 16808);
    assert_eq!(pkt.timestamp_microseconds(), 2570047530);
    assert_eq!(pkt.timestamp_difference_microseconds(), 2672436769);
    assert_eq!(pkt.wnd_size(), 2u32.pow(20));
    assert_eq!(pkt.seq_nr(), 15090);
    assert_eq!(pkt.ack_nr(), 27769);
    assert_eq!(pkt.len(), buf.len());
    assert!(pkt.payload.is_empty());
}

#[test]
fn packet_test_decode_packet_with_extension() {
    let buf = [0x21, 0x01, 0x41, 0xa7, 0x00, 0x00, 0x00, 0x00, 0x00, 0x00,
               0x00, 0x00, 0x00, 0x00, 0x05, 0xdc, 0xab, 0x53, 0x3a, 0xf5,
               0x00, 0x04, 0x00, 0x00, 0x00, 0x00];
    let packet = Packet::from_bytes(&buf);
    assert!(packet.is_ok());
    let packet = packet.unwrap();
    assert_eq!(packet.header().get_version(), 1);
    assert_eq!(packet.header().get_type(), PacketType::State);
    assert_eq!(packet.header().extension(), 1);
    assert_eq!(packet.connection_id(), 16807);
    assert_eq!(packet.timestamp_microseconds(), 0);
    assert_eq!(packet.timestamp_difference_microseconds(), 0);
    assert_eq!(packet.wnd_size(), 1500);
    assert_eq!(packet.seq_nr(), 43859);
    assert_eq!(packet.ack_nr(), 15093);
    assert_eq!(packet.len(), buf.len());
    assert!(packet.payload.is_empty());
    assert!(packet.extensions.len() == 1);
    assert!(packet.extensions[0].get_type() == ExtensionType::SelectiveAck);
    assert!(packet.extensions[0].data == vec!(0, 0, 0, 0));
    assert!(packet.extensions[0].len() == packet.extensions[0].data.len());
    assert!(packet.extensions[0].len() == 4);
    // Reversible
    assert_eq!(packet.to_bytes(), &buf);
}

#[test]
fn test_packet_decode_with_missing_extension() {
    let buf = [0x21, 0x01, 0x41, 0xa8, 0x99, 0x2f, 0xd0, 0x2a, 0x9f, 0x4a,
               0x26, 0x21, 0x00, 0x10, 0x00, 0x00, 0x3a, 0xf2, 0x6c, 0x79];
    let pkt = Packet::from_bytes(&buf);
    assert!(pkt.is_err());
}

#[test]
fn test_packet_decode_with_malformed_extension() {
    let buf = [0x21, 0x01, 0x41, 0xa8, 0x99, 0x2f, 0xd0, 0x2a, 0x9f, 0x4a,
               0x26, 0x21, 0x00, 0x10, 0x00, 0x00, 0x3a, 0xf2, 0x6c, 0x79,
               0x00, 0x04, 0x00];
    let pkt = Packet::from_bytes(&buf);
    assert!(pkt.is_err());
}

#[test]
fn packet_test_decode_packet_with_unknown_extensions() {
    let buf = [0x21, 0x01, 0x41, 0xa7, 0x00, 0x00, 0x00, 0x00, 0x00, 0x00,
               0x00, 0x00, 0x00, 0x00, 0x05, 0xdc, 0xab, 0x53, 0x3a, 0xf5,
               0xff, 0x04, 0x00, 0x00, 0x00, 0x00, // Imaginary extension
               0x00, 0x04, 0x00, 0x00, 0x00, 0x00];
    let packet = Packet::from_bytes(&buf);
    assert!(packet.is_ok());
    let packet = packet.unwrap();
    assert_eq!(packet.header().get_version(), 1);
    assert_eq!(packet.header().get_type(), PacketType::State);
    assert_eq!(packet.header().extension(), 1);
    assert_eq!(packet.connection_id(), 16807);
    assert_eq!(packet.timestamp_microseconds(), 0);
    assert_eq!(packet.timestamp_difference_microseconds(), 0);
    assert_eq!(packet.wnd_size(), 1500);
    assert_eq!(packet.seq_nr(), 43859);
    assert_eq!(packet.ack_nr(), 15093);
    assert!(packet.payload.is_empty());
    assert!(packet.extensions.len() == 2);
    assert!(packet.extensions[0].get_type() == ExtensionType::SelectiveAck);
    assert!(packet.extensions[0].data == vec!(0, 0, 0, 0));
    assert!(packet.extensions[0].len() == packet.extensions[0].data.len());
    assert!(packet.extensions[0].len() == 4);
    // Reversible
    assert_eq!(packet.to_bytes(), &buf);
}

#[test]
fn packet_test_packet_encode() {
    let payload = "Hello\n".as_bytes().to_vec();
    let (timestamp, timestamp_diff): (u32, u32) = (15270793, 1707040186);
    let (connection_id, seq_nr, ack_nr): (u16, u16, u16) = (16808, 15090, 17096);
    let window_size: u32 = 1048576;
    let mut pkt = Packet::new();
    pkt.set_type(PacketType::Data);
    pkt.set_timestamp_microseconds(timestamp);
    pkt.set_timestamp_difference_microseconds(timestamp_diff);
    pkt.set_connection_id(connection_id);
    pkt.set_seq_nr(seq_nr);
    pkt.set_ack_nr(ack_nr);
    pkt.set_wnd_size(window_size);
    pkt.payload = payload.clone();
    let header = pkt.header();
    let buf = [0x01, 0x00, 0x41, 0xa8, 0x00, 0xe9, 0x03, 0x89,
               0x65, 0xbf, 0x5d, 0xba, 0x00, 0x10, 0x00, 0x00,
               0x3a, 0xf2, 0x42, 0xc8, 0x48, 0x65, 0x6c, 0x6c,
               0x6f, 0x0a];

    assert_eq!(pkt.len(), buf.len());
    assert_eq!(pkt.len(), HEADER_SIZE + payload.len());
    assert_eq!(pkt.payload, payload);
    assert_eq!(header.get_version(), 1);
    assert_eq!(header.get_type(), PacketType::Data);
    assert_eq!(header.extension(), 0);
    assert_eq!(pkt.connection_id(), connection_id);
    assert_eq!(pkt.seq_nr(), seq_nr);
    assert_eq!(pkt.ack_nr(), ack_nr);
    assert_eq!(pkt.wnd_size(), window_size);
    assert_eq!(pkt.timestamp_microseconds(), timestamp);
    assert_eq!(pkt.timestamp_difference_microseconds(), timestamp_diff);
    assert_eq!(pkt.to_bytes(), buf.to_vec());
}

#[test]
fn test_packet_encode_with_payload() {
    let payload = "Hello\n".as_bytes().to_vec();
    let (timestamp, timestamp_diff): (u32, u32) = (15270793, 1707040186);
    let (connection_id, seq_nr, ack_nr): (u16, u16, u16) = (16808, 15090, 17096);
    let window_size: u32 = 1048576;
    let mut pkt = Packet::with_payload(&payload[..]);
    pkt.set_timestamp_microseconds(timestamp);
    pkt.set_timestamp_difference_microseconds(timestamp_diff);
    pkt.set_connection_id(connection_id);
    pkt.set_seq_nr(seq_nr);
    pkt.set_ack_nr(ack_nr);
    pkt.set_wnd_size(window_size);
    pkt.payload = payload.clone();
    let header = pkt.header();
    let buf = [0x01, 0x00, 0x41, 0xa8, 0x00, 0xe9, 0x03, 0x89,
               0x65, 0xbf, 0x5d, 0xba, 0x00, 0x10, 0x00, 0x00,
               0x3a, 0xf2, 0x42, 0xc8, 0x48, 0x65, 0x6c, 0x6c,
               0x6f, 0x0a];

    assert_eq!(pkt.len(), buf.len());
    assert_eq!(pkt.len(), HEADER_SIZE + payload.len());
    assert_eq!(pkt.payload, payload);
    assert_eq!(header.get_version(), 1);
    assert_eq!(header.get_type(), PacketType::Data);
    assert_eq!(header.extension(), 0);
    assert_eq!(pkt.connection_id(), connection_id);
    assert_eq!(pkt.seq_nr(), seq_nr);
    assert_eq!(pkt.ack_nr(), ack_nr);
    assert_eq!(pkt.wnd_size(), window_size);
    assert_eq!(pkt.timestamp_microseconds(), timestamp);
    assert_eq!(pkt.timestamp_difference_microseconds(), timestamp_diff);
    assert_eq!(pkt.to_bytes(), buf.to_vec());
}

#[test]
fn test_packet_encode_with_multiple_extensions() {
    let mut packet = Packet::new();
    let extension = Extension::new(ExtensionType::SelectiveAck, vec!(1, 2, 3, 4));
    packet.set_sack(extension.data.clone());
    packet.set_sack(extension.data.clone());
    let bytes = packet.to_bytes();
    assert_eq!(bytes.len(), HEADER_SIZE + (extension.len() + 2) * 2);

    // Type of the first extension
    assert_eq!(bytes[1], u8::from(extension.get_type()));

    // Type of the next (second) extension
    assert_eq!(bytes[HEADER_SIZE], u8::from(extension.get_type()));
    // Length of the first extension
    assert_eq!(bytes[HEADER_SIZE + 1], extension.data.len() as u8);

    // Type of the next (third, non-existent) extension
    assert_eq!(bytes[HEADER_SIZE + 2 + extension.len()], 0);
    // Length of the second extension
    assert_eq!(bytes[HEADER_SIZE + 2 + extension.len() + 1], extension.data.len() as u8);
}

#[test]
fn packet_test_reversible() {
    let buf = [0x01, 0x00, 0x41, 0xa8, 0x00, 0xe9, 0x03, 0x89,
               0x65, 0xbf, 0x5d, 0xba, 0x00, 0x10, 0x00, 0x00,
               0x3a, 0xf2, 0x42, 0xc8, 0x48, 0x65, 0x6c, 0x6c,
               0x6f, 0x0a];
    assert_eq!(&Packet::from_bytes(&buf).unwrap().to_bytes()[..], &buf[..]);
}

#[test]
fn test_decode_evil_sequence() {
    let buf = [0, 1, 0, 0, 0, 0, 0, 0, 0, 0, 0, 0, 0, 0, 0, 0, 0, 0, 0, 0, 0];
    let packet = Packet::from_bytes(&buf);
    assert!(packet.is_err());
}

#[test]
fn test_decode_empty_packet() {
    let packet = Packet::from_bytes(&[]);
    assert!(packet.is_err());
}

// Simulates a malicious attacker sending malformed packets.
fn quicktest_property(x: Vec<u8>) -> TestResult {
    let packet = Packet::from_bytes(&x[..]);

    if x.len() < 20 {
        // Header too small
        TestResult::from_bool(packet.is_err())
    } else if x[0] & 0x0F != 1 {
        // Invalid version
        TestResult::from_bool(packet.is_err())
    } else if (x[0] >> 4) > 4 {
        // Invalid packet type
        TestResult::from_bool(packet.is_err())
    } else if x[1] != 0 {
        // Non-empty extension field, check validity of extension(s)
        if x.len() < HEADER_SIZE + 2 {
            return TestResult::from_bool(packet.is_err());
        }

        let mut next_kind = x[1];
        let mut idx = HEADER_SIZE;

        while idx < x.len() && next_kind != 0 {
            if x.len() < idx + 2 {
                return TestResult::from_bool(packet.is_err());
            }
            let len = x[idx + 1] as usize;
            next_kind = x[idx];

            // Check validity of extension length:
            // - non-zero,
            // - multiple of 4,
            // - does not exceed packet length
            if len == 0 || len % 4 != 0 || x.len() < idx + len + 2 {
                return TestResult::from_bool(packet.is_err());
            }

            idx += len + 2;
        }
        TestResult::from_bool(packet.is_ok() || next_kind != 0)
    } else {
        TestResult::from_bool(packet.is_ok() && packet.unwrap().to_bytes() == x)
    }
}

#[test]
fn quicktest() {
    QuickCheck::new().tests(10000).quickcheck(quicktest_property as fn(Vec<u8>) -> TestResult)
}

#[test]
fn decode_errors_name_their_cause() {
    // Too short for a header
    assert_eq!(Packet::from_bytes(&[0x21; 19]).err(), Some(ParseError::InvalidPacketLength));
    // Version 2
    let mut buf = [0u8; 20];
    buf[0] = 0x22;
    assert_eq!(Packet::from_bytes(&buf).err(), Some(ParseError::UnsupportedVersion));
    // Type 5
    buf[0] = 0x51;
    assert_eq!(Packet::from_bytes(&buf).err(), Some(ParseError::InvalidPacketType(5)));
    // An extension announced where none follows
    buf[0] = 0x21;
    buf[1] = 1;
    assert_eq!(Packet::from_bytes(&buf).err(), Some(ParseError::InvalidExtensionLength));
    // An extension whose length is not a multiple of 4
    let mut long = buf.to_vec();
    long.extend_from_slice(&[0, 3, 1, 2, 3]);
    assert_eq!(Packet::from_bytes(&long).err(), Some(ParseError::InvalidExtensionLength));
    // An extension running past the end
    let mut short = buf.to_vec();
    short.extend_from_slice(&[0, 8, 1, 2, 3, 4]);
    assert_eq!(Packet::from_bytes(&short).err(), Some(ParseError::InvalidExtensionLength));
}

#[test]
fn decode_keeps_the_payload_after_the_extensions() {
    let mut buf = vec![0x01, 0x01];
    buf.extend_from_slice(&[0u8; 18]);
    buf.extend_from_slice(&[0x00, 0x04, 0xaa, 0xbb, 0xcc, 0xdd, 1, 2, 3]);
    let packet = Packet::from_bytes(&buf).unwrap();
    assert_eq!(packet.extensions.len(), 1);
    assert_eq!(packet.extensions[0].data, vec![0xaa, 0xbb, 0xcc, 0xdd]);
    assert_eq!(packet.payload, vec![1, 2, 3]);
    assert_eq!(packet.len(), buf.len());
    assert_eq!(packet.to_bytes(), buf);
}

#[test]
fn set_type_keeps_the_version() {
    let mut packet = Packet::new();
    for t in [PacketType::Data, PacketType::Fin, PacketType::State, PacketType::Reset, PacketType::Syn] {
        packet.set_type(t);
        assert_eq!(packet.get_type(), t);
        assert_eq!(packet.header().get_version(), 1);
    }
    assert_eq!(packet.to_bytes()[0], 0x41);
}

#[test]
fn set_sack_marks_the_header() {
    let mut packet = Packet::new();
    packet.set_sack(vec![0, 0, 0, 1]);
    assert_eq!(packet.header().extension(), 1);
    assert_eq!(packet.extensions.len(), 1);
    assert_eq!(packet.len(), HEADER_SIZE + 6);
    let bytes = packet.to_bytes();
    assert_eq!(Packet::from_bytes(&bytes).unwrap().to_bytes(), bytes);
}

#[test]
fn extension_types_convert_both_ways() {
    assert_eq!(ExtensionType::from(0u8), ExtensionType::NoExtension);
    assert_eq!(ExtensionType::from(1u8), ExtensionType::SelectiveAck);
    assert_eq!(ExtensionType::from(7u8), ExtensionType::Unknown(7));
    for n in 0..=255u8 {
        assert_eq!(u8::from(ExtensionType::from(n)), n);
    }
}

#[test]
fn clone_keeps_every_field() {
    let buf = [0x21, 0x01, 0x41, 0xa7, 0x00, 0x00, 0x00, 0x00, 0x00, 0x00,
               0x00, 0x00, 0x00, 0x00, 0x05, 0xdc, 0xab, 0x53, 0x3a, 0xf5,
               0x00, 0x04, 0x00, 0x00, 0x00, 0x00, 9, 9];
    let packet = Packet::from_bytes(&buf).unwrap();
    let copy = packet.clone();
    assert_eq!(copy.to_bytes(), packet.to_bytes());
}

#[test]
fn unknown_extension_numbered_one_reads_back_as_selective_ack() {
    let mut packet = Packet::with_payload(&[9, 9]);
    packet.set_sack(vec![1, 2, 3, 4]);
    packet.extensions[0].ty = ExtensionType::Unknown(1);
    let decoded = Packet::from_bytes(&packet.to_bytes()).unwrap();
    assert_eq!(decoded.extensions.len(), 1);
    assert_eq!(decoded.extensions[0].get_type(), ExtensionType::SelectiveAck);
    assert_eq!(decoded.extensions[0].data, vec![1, 2, 3, 4]);
    assert_eq!(decoded.payload, vec![9, 9]);
    assert_eq!(decoded.to_bytes(), packet.to_bytes());
}

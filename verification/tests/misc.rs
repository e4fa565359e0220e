use utp::error::{IoErrorKind, ParseError, SocketError};
use utp::extension_iterator::ExtensionIterator;
use utp::packet::{Encodable, ExtensionType, Packet};
use utp::time::{now_microseconds, timestamp_from_duration, timestamp_of_reading, ClockReading};
use utp::util::abs_diff;

#[test]
fn socket_error_descriptions() {
    assert_eq!(SocketError::ConnectionClosed.description(), "The socket is closed");
    assert_eq!(SocketError::ConnectionReset.description(), "Connection reset by remote peer");
    assert_eq!(SocketError::ConnectionTimedOut.description(), "Connection timed out");
    assert_eq!(SocketError::InvalidAddress.description(), "Invalid address");
    assert_eq!(SocketError::InvalidReply.description(), "The remote peer sent an invalid reply");
    assert_eq!(SocketError::NotConnected.description(), "The socket is not connected");
    assert_eq!(SocketError::Other("boom".to_string()).description(), "boom");
}

#[test]
fn parse_error_descriptions() {
    assert_eq!(
        ParseError::InvalidExtensionLength.description(),
        "Invalid extension length (must be a non-zero multiple of 4)"
    );
    assert_eq!(ParseError::InvalidPacketLength.description(), "The packet is too small");
    assert_eq!(ParseError::InvalidPacketType(9).description(), "Invalid packet type");
    assert_eq!(ParseError::UnsupportedVersion.description(), "Unsupported packet version");
}

#[test]
fn abs_diff_is_symmetric() {
    assert_eq!(abs_diff(10, 3), 7);
    assert_eq!(abs_diff(3, 10), 7);
    assert_eq!(abs_diff(0, u32::MAX), u32::MAX);
    assert_eq!(abs_diff(5, 5), 0);
}

#[test]
fn timestamps_wrap_on_32_bits() {
    assert_eq!(timestamp_from_duration(0, 0), 0);
    assert_eq!(timestamp_from_duration(1, 2_500), 1_000_002);
    // 4295 seconds is past 2^32 microseconds
    assert_eq!(timestamp_from_duration(4295, 0), (4_295_000_000u64 % (1u64 << 32)) as u32);
    assert_eq!(
        timestamp_from_duration(u64::MAX, 999_999_999),
        ((u64::MAX as u128 * 1_000_000 + 999_999) % (1u128 << 32)) as u32
    );
}

#[test]
fn clocks_read_the_system_time() {
    let a = now_microseconds();
    let b = utp::util::now_microseconds();
    // Both read microseconds since the epoch on 32 bits; a few seconds apart at most.
    assert!(b.wrapping_sub(a) < 5_000_000);
}

#[test]
fn extension_iterator_walks_the_chain() {
    let buf = [0x21, 0x01, 0x41, 0xa7, 0x00, 0x00, 0x00, 0x00, 0x00, 0x00,
               0x00, 0x00, 0x00, 0x00, 0x05, 0xdc, 0xab, 0x53, 0x3a, 0xf5,
               0xff, 0x04, 0x01, 0x02, 0x03, 0x04,
               0x00, 0x08, 0x00, 0x00, 0x00, 0x00, 0x00, 0x00, 0x00, 0x07, 0x42];
    let mut it = ExtensionIterator::new(&buf);
    let first = it.next().unwrap();
    assert_eq!(first.get_type(), ExtensionType::SelectiveAck);
    assert_eq!(first.data, vec![1, 2, 3, 4]);
    let second = it.next().unwrap();
    assert_eq!(second.get_type(), ExtensionType::Unknown(0xff));
    assert_eq!(second.data, vec![0, 0, 0, 0, 0, 0, 0, 7]);
    assert!(it.next().is_none());
    assert!(it.next().is_none());

    let mut plain = Packet::new();
    plain.payload = vec![1, 2, 3];
    let bytes = plain.to_bytes();
    let mut it = ExtensionIterator::new(&bytes);
    assert!(it.next().is_none());
}

#[test]
fn timestamps_of_clock_readings() {
    let after = ClockReading { before_epoch: false, secs: 1, subsec_nanos: 2_500 };
    assert_eq!(timestamp_of_reading(&after), 1_000_002);
    // One second before the epoch.
    let before = ClockReading { before_epoch: true, secs: 1, subsec_nanos: 0 };
    assert_eq!(timestamp_of_reading(&before), 4_293_967_296);
    // Half a millisecond before the epoch: -500 microseconds.
    let before = ClockReading { before_epoch: true, secs: 0, subsec_nanos: 500_000 };
    assert_eq!(timestamp_of_reading(&before), 4_294_966_796);
    let epoch = ClockReading { before_epoch: true, secs: 0, subsec_nanos: 0 };
    assert_eq!(timestamp_of_reading(&epoch), 0);
}

#[test]
fn socket_errors_stand_for_io_error_kinds() {
    assert_eq!(SocketError::ConnectionClosed.io_kind(), IoErrorKind::NotConnected);
    assert_eq!(SocketError::NotConnected.io_kind(), IoErrorKind::NotConnected);
    assert_eq!(SocketError::ConnectionReset.io_kind(), IoErrorKind::ConnectionReset);
    assert_eq!(SocketError::ConnectionTimedOut.io_kind(), IoErrorKind::TimedOut);
    assert_eq!(SocketError::InvalidAddress.io_kind(), IoErrorKind::InvalidInput);
    assert_eq!(SocketError::InvalidReply.io_kind(), IoErrorKind::ConnectionRefused);
    assert_eq!(SocketError::Other("x".to_owned()).io_kind(), IoErrorKind::Other);
}

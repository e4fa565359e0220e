//! Implementation of the Micro Transport Protocol (uTP): the packet formats, the bit-level
//! helpers and the decisions of a uTP connection, apart from the network and the clock.
//!
//! - `packet`, `extension_iterator` and `packet_laws`: the packet format with typed extensions,
//!   its checked decoding and encoding, and the round-trip laws.
//! - `socket`, `congestion`, `socket_laws` and `congestion_laws`: the connection state machine,
//!   the LEDBAT bookkeeping of delays, windows and timeouts, and what they keep across
//!   operations.
//! - `basic_packet` and `basic_socket`: the basic format (header and payload) and its
//!   connection with one packet in flight.
//! - `sack_packet` and `sack_socket`: the format with a chain of selective acknowledgements and
//!   its connection with a send window.
//! - `bit_iterator`, `util`, `time` and `error`: helpers, the clock and the errors.
pub mod bit_iterator;
pub mod util;
pub mod error;
pub mod packet;
pub mod packet_laws;
pub mod extension_iterator;
pub mod time;
pub mod socket;
pub mod congestion;
pub mod congestion_laws;
pub mod socket_laws;
pub mod basic_packet;
pub mod basic_socket;
pub mod sack_packet;
pub mod sack_socket;

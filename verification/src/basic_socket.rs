//! The decisions of a connection over the basic packet format: one packet in flight, every
//! packet acknowledged as it comes, no extensions. Arithmetic on sequence numbers, connection
//! identifiers and timestamps wraps around.
use crate::basic_packet::{new_raw_header, with_type, UtpPacket, UtpPacketHeader};
use crate::packet::{type_number, type_of_number, PacketType, HEADER_SIZE};
use vstd::prelude::*;
use vstd::slice::slice_to_vec;

verus! {

/// Size of the buffers of the basic socket.
pub const BASIC_BUF_SIZE: usize = 4096;

/// The states of a connection over the basic format.
#[derive(PartialEq, Eq, Debug, Copy, Clone, Structural)]
pub enum BasicSocketState {
    New,
    Connected,
    SynSent,
    FinReceived,
    RstReceived,
    Closed,
}

/// Errors of a connection over the basic format.
#[derive(PartialEq, Eq, Debug, Copy, Clone, Structural)]
pub enum BasicError {
    /// The connection is closed.
    Closed,
    /// The remote peer aborted the connection.
    ConnectionReset,
    /// The remote peer finished the connection.
    EndOfFile,
}

/// The 16-bit number with its two bytes swapped: what storing a number in network byte order
/// gives on a little-endian machine.
pub open spec fn swap16(x: u16) -> u16 {
    ((x % 256) * 256 + x / 256) as u16
}

/// Swaps the two bytes of a 16-bit number.
pub fn swap_bytes16(x: u16) -> (r: u16)
    ensures
        r == swap16(x),
{
    (x % 256) * 256 + x / 256
}

/// `a - b` on 32 bits, wrapping around.
pub open spec fn wrap_sub32(a: u32, b: u32) -> u32 {
    if a >= b {
        (a - b) as u32
    } else {
        (a - b + 0x1_0000_0000) as u32
    }
}

/// Whether a packet's type number names a packet type.
pub open spec fn type_known(h: UtpPacketHeader) -> bool {
    h.type_ver / 16 <= 4
}

/// The type of a packet whose type number names one.
pub open spec fn type_of(h: UtpPacketHeader) -> PacketType {
    type_of_number(h.type_ver / 16)
}

/// The state of one side of a connection over the basic format, apart from its UDP socket.
pub struct BasicSocketCore<A> {
    pub connected_to: A,
    pub sender_connection_id: u16,
    pub receiver_connection_id: u16,
    pub seq_nr: u16,
    pub ack_nr: u16,
    pub state: BasicSocketState,
}

impl<A> BasicSocketCore<A> {
    /// The header of the reply of type `t` to a packet with header `received`, made at `now`.
    pub open spec fn reply_header(&self, received: UtpPacketHeader, t: PacketType, now: u32) -> UtpPacketHeader {
        UtpPacketHeader {
            type_ver: with_type(1, t),
            timestamp_microseconds: now,
            timestamp_difference_microseconds: wrap_sub32(now, received.timestamp_microseconds),
            connection_id: self.sender_connection_id,
            seq_nr: self.seq_nr,
            ack_nr: self.ack_nr,
            ..new_raw_header()
        }
    }

    /// The state of a socket bound to `addr` with receiver identifier `r`: the sender's is
    /// `r + 1`, wrapping around.
    pub fn bind(addr: A, r: u16) -> (s: Self)
        ensures
            s.connected_to == addr,
            s.receiver_connection_id == r,
            s.sender_connection_id == (r + 1) % 65536,
            s.seq_nr == 1,
            s.ack_nr == 0,
            s.state == BasicSocketState::New,
    {
        BasicSocketCore {
            connected_to: addr,
            receiver_connection_id: r,
            sender_connection_id: r.wrapping_add(1),
            seq_nr: 1,
            ack_nr: 0,
            state: BasicSocketState::New,
        }
    }

    /// The state of a socket of the small program bound to `addr` with receiver identifier
    /// `r`: both identifiers are kept with their bytes swapped.
    pub fn bind_swapped(addr: A, r: u16) -> (s: Self)
        ensures
            s.connected_to == addr,
            s.receiver_connection_id == swap16(r),
            s.sender_connection_id == swap16(((r + 1) % 65536) as u16),
            s.seq_nr == 1,
            s.ack_nr == 0,
            s.state == BasicSocketState::New,
    {
        BasicSocketCore {
            connected_to: addr,
            receiver_connection_id: swap_bytes16(r),
            sender_connection_id: swap_bytes16(r.wrapping_add(1)),
            seq_nr: 1,
            ack_nr: 0,
            state: BasicSocketState::New,
        }
    }

    /// Builds the reply of type `t` to a packet with header `received`, made at `now`.
    pub fn prepare_reply(&self, received: &UtpPacketHeader, t: PacketType, now: u32) -> (resp: UtpPacket)
        ensures
            resp.header == self.reply_header(*received, t, now),
            resp.payload@.len() == 0,
    {
        let mut resp = UtpPacket::new();
        resp.set_type(t);
        resp.header.timestamp_microseconds = now;
        resp.header.timestamp_difference_microseconds = now.wrapping_sub(received.timestamp_microseconds);
        resp.header.connection_id = self.sender_connection_id;
        resp.header.seq_nr = self.seq_nr;
        resp.header.ack_nr = self.ack_nr;
        resp
    }

    /// The SYN that opens a connection, made at `now`: it carries the receiver identifier
    /// `cid` and the socket's sequence number; the socket then waits for the reply.
    pub fn syn_packet(&mut self, cid: u16, now: u32) -> (p: UtpPacket)
        ensures
            p.header == (UtpPacketHeader {
                type_ver: with_type(1, PacketType::Syn),
                connection_id: cid,
                seq_nr: old(self).seq_nr,
                timestamp_microseconds: now,
                ..new_raw_header()
            }),
            p.payload@.len() == 0,
            *final(self) == (BasicSocketCore { state: BasicSocketState::SynSent, ..*old(self) }),
    {
        let mut packet = UtpPacket::new();
        packet.set_type(PacketType::Syn);
        packet.header.connection_id = cid;
        packet.header.seq_nr = self.seq_nr;
        packet.header.timestamp_microseconds = now;
        self.state = BasicSocketState::SynSent;
        packet
    }

    /// Completes the opening of a connection once the reply came: the socket is connected and
    /// its sequence number moves on by one.
    pub fn complete_connection(&mut self)
        ensures
            *final(self) == (BasicSocketCore {
                state: BasicSocketState::Connected,
                seq_nr: ((old(self).seq_nr + 1) % 65536) as u16,
                ..*old(self)
            }),
    {
        self.state = BasicSocketState::Connected;
        self.seq_nr = self.seq_nr.wrapping_add(1);
    }

    /// The FIN that closes a connection, made at `now`, carrying the identifier `cid`; where
    /// `with_ack` holds it also carries the acknowledgement number.
    pub fn fin_packet(&self, cid: u16, with_ack: bool, now: u32) -> (p: UtpPacket)
        ensures
            p.header == (UtpPacketHeader {
                type_ver: with_type(1, PacketType::Fin),
                connection_id: cid,
                seq_nr: self.seq_nr,
                ack_nr: if with_ack { self.ack_nr } else { 0 },
                timestamp_microseconds: now,
                ..new_raw_header()
            }),
            p.payload@.len() == 0,
    {
        let mut packet = UtpPacket::new();
        packet.header.connection_id = cid;
        packet.header.seq_nr = self.seq_nr;
        if with_ack {
            packet.header.ack_nr = self.ack_nr;
        }
        packet.header.timestamp_microseconds = now;
        packet.set_type(PacketType::Fin);
        packet
    }

    /// The data packet that carries `buf`, made at `now`.
    pub fn data_packet(&self, buf: &[u8], now: u32) -> (p: UtpPacket)
        ensures
            p.header == (UtpPacketHeader {
                type_ver: with_type(1, PacketType::Data),
                connection_id: self.sender_connection_id,
                seq_nr: self.seq_nr,
                ack_nr: self.ack_nr,
                timestamp_microseconds: now,
                ..new_raw_header()
            }),
            p.payload@ == buf@,
    {
        let mut packet = UtpPacket::new();
        packet.set_type(PacketType::Data);
        packet.payload = slice_to_vec(buf);
        packet.header.timestamp_microseconds = now;
        packet.header.seq_nr = self.seq_nr;
        packet.header.ack_nr = self.ack_nr;
        packet.header.connection_id = self.sender_connection_id;
        packet
    }

    /// Takes the acknowledgement `resp` of the data packet just sent: it must be a State packet
    /// that acknowledges the socket's sequence number, which then moves on by one. Returns
    /// whether it was such an acknowledgement; otherwise nothing changes.
    pub fn take_data_ack(&mut self, resp: &UtpPacketHeader) -> (ok: bool)
        ensures
            ok == (type_known(*resp) && type_of(*resp) == PacketType::State && resp.ack_nr == old(self).seq_nr),
            ok ==> *final(self) == (BasicSocketCore { seq_nr: ((old(self).seq_nr + 1) % 65536) as u16, ..*old(self) }),
            !ok ==> *final(self) == *old(self),
    {
        if resp.type_ver / 16 == 2 && resp.ack_nr == self.seq_nr {
            self.seq_nr = self.seq_nr.wrapping_add(1);
            proof {
                assert(type_of_number(2) == PacketType::State);
            }
            true
        } else {
            proof {
                if type_known(*resp) && type_of(*resp) == PacketType::State {
                    assert(type_number(type_of_number(resp.type_ver / 16)) == resp.type_ver / 16);
                }
            }
            false
        }
    }

    /// Whether the socket can still receive: a closed one cannot.
    pub fn check_open(&self) -> (r: Result<(), BasicError>)
        ensures
            self.state == BasicSocketState::Closed ==> r == Err::<(), BasicError>(BasicError::Closed),
            self.state != BasicSocketState::Closed ==> r is Ok,
    {
        if self.state == BasicSocketState::Closed {
            Err(BasicError::Closed)
        } else {
            Ok(())
        }
    }

    /// Whether a received packet can be taken in: a reset aborts the connection.
    pub fn check_not_reset(h: &UtpPacketHeader) -> (r: Result<(), BasicError>)
        requires
            type_known(*h),
        ensures
            type_of(*h) == PacketType::Reset ==> r == Err::<(), BasicError>(BasicError::ConnectionReset),
            type_of(*h) != PacketType::Reset ==> r is Ok,
    {
        if h.get_type() == PacketType::Reset {
            Err(BasicError::ConnectionReset)
        } else {
            Ok(())
        }
    }

    /// Handles an incoming packet, updating the socket's state, and returns the reply to send,
    /// if any; `fresh_seq_nr` is the sequence number a listening socket takes on a SYN. A packet
    /// other than a SYN whose connection identifier is neither side's is answered with a reset;
    /// otherwise the acknowledgement number becomes the packet's sequence number.
    pub fn handle_packet(&mut self, packet: &UtpPacket, now: u32, fresh_seq_nr: u16) -> (r: Option<UtpPacket>)
        requires
            type_known(packet.header),
        ensures
            ({
                let h = packet.header;
                let t = type_of(h);
                let s0 = *old(self);
                let acked = BasicSocketCore { ack_nr: h.seq_nr, ..s0 };
                if t != PacketType::Syn && !(h.connection_id == s0.sender_connection_id
                    || h.connection_id == s0.receiver_connection_id) {
                    &&& *final(self) == s0
                    &&& r matches Some(q) && q.header == s0.reply_header(h, PacketType::Reset, now) && q.payload@.len() == 0
                } else {
                    match t {
                        PacketType::Syn => {
                            let c = BasicSocketCore {
                                seq_nr: fresh_seq_nr,
                                receiver_connection_id: ((h.connection_id + 1) % 65536) as u16,
                                sender_connection_id: h.connection_id,
                                state: BasicSocketState::Connected,
                                ..acked
                            };
                            &&& *final(self) == c
                            &&& r matches Some(q) && q.header == c.reply_header(h, PacketType::State, now) && q.payload@.len() == 0
                        },
                        PacketType::Data => {
                            &&& *final(self) == acked
                            &&& r matches Some(q) && q.header == acked.reply_header(h, PacketType::State, now) && q.payload@.len() == 0
                        },
                        PacketType::Fin => {
                            let c = BasicSocketCore { state: BasicSocketState::Closed, ..acked };
                            &&& *final(self) == c
                            &&& r matches Some(q) && q.header == c.reply_header(h, PacketType::State, now) && q.payload@.len() == 0
                        },
                        _ => {
                            &&& *final(self) == acked
                            &&& r is None
                        },
                    }
                }
            }),
    {
        let t = packet.get_type();
        // Reset connection if connection id doesn't match and this isn't a SYN
        if t != PacketType::Syn && !(packet.header.connection_id == self.sender_connection_id
            || packet.header.connection_id == self.receiver_connection_id) {
            return Some(self.prepare_reply(&packet.header, PacketType::Reset, now));
        }
        self.ack_nr = packet.header.seq_nr;
        match t {
            PacketType::Syn => {
                // Update socket information for new connections
                self.seq_nr = fresh_seq_nr;
                self.receiver_connection_id = packet.header.connection_id.wrapping_add(1);
                self.sender_connection_id = packet.header.connection_id;
                self.state = BasicSocketState::Connected;
                Some(self.prepare_reply(&packet.header, PacketType::State, now))
            },
            PacketType::Data => Some(self.prepare_reply(&packet.header, PacketType::State, now)),
            PacketType::Fin => {
                self.state = BasicSocketState::Closed;
                Some(self.prepare_reply(&packet.header, PacketType::State, now))
            },
            _ => None,
        }
    }

    /// What the small program's socket does with an incoming packet: a socket that was reset
    /// or finished refuses; otherwise the acknowledgement number becomes the packet's sequence
    /// number, a SYN sets up the connection, and a SYN, a data packet or a FIN is acknowledged,
    /// a FIN finishing the connection.
    pub fn answer_packet(&mut self, packet: &UtpPacket, now: u32, fresh_seq_nr: u16) -> (r: Result<Option<UtpPacket>, BasicError>)
        requires
            type_known(packet.header),
        ensures
            old(self).state == BasicSocketState::RstReceived ==> r == Err::<Option<UtpPacket>, BasicError>(BasicError::ConnectionReset)
                && *final(self) == *old(self),
            old(self).state == BasicSocketState::FinReceived ==> r == Err::<Option<UtpPacket>, BasicError>(BasicError::EndOfFile)
                && *final(self) == *old(self),
            old(self).state != BasicSocketState::RstReceived && old(self).state != BasicSocketState::FinReceived ==> ({
                let h = packet.header;
                let acked = BasicSocketCore { ack_nr: h.seq_nr, ..*old(self) };
                match type_of(h) {
                    PacketType::Syn => {
                        let c = BasicSocketCore {
                            seq_nr: fresh_seq_nr,
                            receiver_connection_id: ((h.connection_id + 1) % 65536) as u16,
                            sender_connection_id: h.connection_id,
                            ..acked
                        };
                        &&& *final(self) == BasicSocketCore { state: BasicSocketState::Connected, ..c }
                        &&& r matches Ok(Some(q)) && q.header == c.reply_header(h, PacketType::State, now) && q.payload@.len() == 0
                    },
                    PacketType::Data => {
                        &&& *final(self) == acked
                        &&& r matches Ok(Some(q)) && q.header == acked.reply_header(h, PacketType::State, now) && q.payload@.len() == 0
                    },
                    PacketType::Fin => {
                        &&& *final(self) == BasicSocketCore { state: BasicSocketState::FinReceived, ..acked }
                        &&& r matches Ok(Some(q)) && q.header == acked.reply_header(h, PacketType::State, now) && q.payload@.len() == 0
                    },
                    _ => {
                        &&& *final(self) == acked
                        &&& r matches Ok(None)
                    },
                }
            }),
    {
        if self.state == BasicSocketState::RstReceived {
            return Err(BasicError::ConnectionReset);
        }
        if self.state == BasicSocketState::FinReceived {
            return Err(BasicError::EndOfFile);
        }
        self.ack_nr = packet.header.seq_nr;
        match packet.get_type() {
            PacketType::Syn => {
                // Update socket information for new connections
                self.seq_nr = fresh_seq_nr;
                self.receiver_connection_id = packet.header.connection_id.wrapping_add(1);
                self.sender_connection_id = packet.header.connection_id;
                let reply = self.prepare_reply(&packet.header, PacketType::State, now);
                self.state = BasicSocketState::Connected;
                Ok(Some(reply))
            },
            PacketType::Data => Ok(Some(self.prepare_reply(&packet.header, PacketType::State, now))),
            PacketType::Fin => {
                self.state = BasicSocketState::FinReceived;
                Ok(Some(self.prepare_reply(&packet.header, PacketType::State, now)))
            },
            _ => Ok(None),
        }
    }
}

/// The bytes of a received datagram of `read` bytes that reach a buffer of `capacity` bytes:
/// those after the header, at most `capacity`. The count of payload bytes wraps around where
/// the datagram is shorter than a header.
pub open spec fn received_payload_len(read: usize, capacity: int) -> int {
    let n = if read >= HEADER_SIZE {
        read - HEADER_SIZE
    } else {
        read - HEADER_SIZE + usize::MAX + 1
    };
    if capacity <= n {
        capacity
    } else {
        n
    }
}

/// Copies the payload of a received datagram `b` of `read` bytes into `buf` and returns the
/// payload length that the socket reports, which wraps around for a datagram shorter than a
/// header.
pub fn copy_payload(b: &[u8], read: usize, buf: &mut [u8]) -> (n: usize)
    requires
        b@.len() >= HEADER_SIZE + received_payload_len(read, old(buf)@.len() as int),
    ensures
        n == read.wrapping_sub(HEADER_SIZE),
        final(buf)@.len() == old(buf)@.len(),
        forall|i: int| 0 <= i < received_payload_len(read, old(buf)@.len() as int) ==> final(buf)@[i] == b@[i + HEADER_SIZE],
        forall|i: int| received_payload_len(read, old(buf)@.len() as int) <= i < old(buf)@.len() ==> final(buf)@[i] == old(buf)@[i],
{
    let n = read.wrapping_sub(HEADER_SIZE);
    let m = if buf.len() <= n { buf.len() } else { n };
    let blen = b.len();
    let mut i: usize = 0;
    while i < m
        invariant
            blen == b@.len(),
            m == received_payload_len(read, old(buf)@.len() as int),
            n == read.wrapping_sub(HEADER_SIZE),
            buf@.len() == old(buf)@.len(),
            m <= buf@.len(),
            b@.len() >= HEADER_SIZE + m,
            i <= m,
            forall|j: int| 0 <= j < i ==> buf@[j] == b@[j + HEADER_SIZE],
            forall|j: int| i <= j < buf@.len() ==> buf@[j] == old(buf)@[j],
        decreases m - i,
    {
        buf[i] = b[i + HEADER_SIZE];
        i = i + 1;
    }
    n
}

} // verus!

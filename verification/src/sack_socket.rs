//! The decisions of a connection over the packet format with selective acknowledgements: a
//! send window under a congestion window, an incoming buffer that takes packets out of order,
//! delay samples over the last two minutes, and resends on duplicate or selective
//! acknowledgements. Arithmetic on sequence numbers, timestamps and window sizes wraps around.
use crate::basic_packet::{new_raw_header, with_type, UtpPacketHeader};
use crate::basic_socket::{type_known, type_of, wrap_sub32};
use crate::congestion::{div_toward_zero, next_rtt, next_rtt_variance, timeout_for};
use crate::packet::{PacketType, HEADER_SIZE};
use crate::sack_packet::{ext_data, exts_len, UtpExtension, UtpPacket};
use crate::congestion_laws::{law_stale_samples_dropped, law_window_grows_without_queuing, stale};
use std::collections::VecDeque;
use vstd::prelude::*;
use vstd::slice::slice_to_vec;

verus! {

/// For simplicity's sake, no packet is taken to exceed the Ethernet maximum transfer unit of
/// 1500 bytes.
pub const SACK_BUF_SIZE: usize = 1500;

/// Maximum segment size.
pub const SACK_MSS: u64 = 1400;

/// The smallest congestion window, in segments.
pub const SACK_MIN_CWND: u64 = 2;

/// The initial congestion window, in segments.
pub const SACK_INIT_CWND: u64 = 2;

/// How far the congestion window may grow past the bytes in flight, in segments.
pub const SACK_ALLOWED_INCREASE: u64 = 1;

/// The target queuing delay: 100 milliseconds.
pub const SACK_TARGET: u32 = 100_000;

/// How long a delay sample is kept: two minutes, in microseconds.
pub const SAMPLE_AGE: u32 = 120_000_000;

/// The states of a connection.
#[derive(PartialEq, Eq, Debug, Copy, Clone, Structural)]
pub enum UtpSocketState {
    New,
    Connected,
    SynSent,
    FinReceived,
    FinSent,
    RstReceived,
    Closed,
    Eof,
}

/// Errors of a connection.
#[derive(PartialEq, Eq, Debug, Copy, Clone, Structural)]
pub enum SackError {
    /// The connection is closed.
    Closed,
    /// The remote peer finished the connection and every byte was read.
    EndOfFile,
}

/// What a socket does after handling a packet.
pub enum SackReply {
    /// Nothing is sent back.
    Nothing,
    /// The packet is sent back to the remote peer.
    Send(UtpPacket),
    /// The packet acknowledges sent data: the acknowledgement procedure runs next.
    ProcessState,
}

/// `a + b` on 16 bits, wrapping around.
pub open spec fn wrap_add16(a: u16, b: int) -> u16 {
    ((a + b) % 65536) as u16
}

/// `a - b` on 16 bits, wrapping around.
pub open spec fn wrap_sub16(a: u16, b: u16) -> u16 {
    if a >= b {
        (a - b) as u16
    } else {
        (a - b + 65536) as u16
    }
}

/// `a + b` on 64 bits, wrapping around.
pub open spec fn wrap_add64(a: u64, b: u64) -> u64 {
    ((a + b) % 0x1_0000_0000_0000_0000) as u64
}

/// `a * b` on 64 bits, wrapping around.
pub open spec fn wrap_mul64(a: u64, b: u64) -> u64 {
    ((a * b) % 0x1_0000_0000_0000_0000) as u64
}

/// The 32-bit number with its four bytes in reverse order: what a number kept in network byte
/// order reads as on a little-endian machine.
pub open spec fn swap32(x: u32) -> u32 {
    ((x % 256) * 16777216 + ((x / 256) % 256) * 65536 + ((x / 65536) % 256) * 256 + x / 16777216) as u32
}

/// Reverses the four bytes of a 32-bit number.
pub fn swap_bytes32(x: u32) -> (r: u32)
    ensures
        r == swap32(x),
{
    (x % 256) * 16777216 + ((x / 256) % 256) * 65536 + ((x / 65536) % 256) * 256 + x / 16777216
}

/// The sequence number of a packet.
pub open spec fn sq(p: UtpPacket) -> u16 {
    p.header.seq_nr
}

/// What a packet holds, apart from where its bytes live: its header, the data of its
/// extensions and its payload.
pub open spec fn pview(p: UtpPacket) -> (UtpPacketHeader, Seq<Seq<u8>>, Seq<u8>) {
    (p.header, ext_data(p.extensions@), p.payload@)
}

/// The length on the wire of a packet.
pub open spec fn plen(p: UtpPacket) -> nat {
    (HEADER_SIZE + p.payload@.len() + exts_len(p.extensions@, p.extensions@.len() as int)) as nat
}

/// The bytes that the packets of `s` from `i` on take on the wire.
pub open spec fn window_len(s: Seq<UtpPacket>, i: int) -> nat
    decreases s.len() - i,
{
    if 0 <= i < s.len() {
        plen(s[i]) + window_len(s, i + 1)
    } else {
        0
    }
}

/// Packets in strictly ascending order of sequence number.
pub open spec fn sorted_seq(s: Seq<UtpPacket>) -> bool {
    forall|i: int, j: int| 0 <= i < j < s.len() ==> sq(#[trigger] s[i]) < sq(#[trigger] s[j])
}

/// The delay samples that remain at `now` once those taken more than two minutes earlier are
/// dropped from the front.
pub open spec fn fresh_samples(s: Seq<(u32, u32)>, now: u32) -> Seq<(u32, u32)>
    decreases s.len(),
{
    if s.len() > 0 && wrap_sub32(now, s[0].0) > SAMPLE_AGE {
        fresh_samples(s.drop_first(), now)
    } else {
        s
    }
}

/// Divides by a positive divisor, rounding toward zero.
fn div_i64_toward_zero(a: i64, d: i64) -> (q: i64)
    requires
        d > 0,
        a > i64::MIN,
    ensures
        q == div_toward_zero(a as int, d as int),
{
    if a >= 0 {
        a / d
    } else {
        let n: i64 = -a;
        -(n / d)
    }
}

/// Lazy iterator over the bits of a vector of bytes, starting with the least significant bit
/// of the first byte.
pub struct BitIterator {
    object: Vec<u8>,
    current_byte: usize,
    current_bit: usize,
}

/// The bit of `bytes` at position `i`, counting from the least significant bit of the first
/// byte, as 0 or 1.
pub open spec fn bit_value(bytes: Seq<u8>, i: int) -> u8 {
    (bytes[i / 8] >> ((i % 8) as u8)) & 1u8
}

impl BitIterator {
    #[verifier::type_invariant]
    spec fn inv(self) -> bool {
        &&& self.current_bit < 8
        &&& self.current_byte <= self.object@.len()
        &&& self.current_byte == self.object@.len() ==> self.current_bit == 0
        &&& self.object@.len() * 8 <= usize::MAX
    }

    /// The position of the next bit.
    pub closed spec fn position(self) -> int {
        self.current_byte * 8 + self.current_bit
    }

    /// The bytes walked over.
    pub closed spec fn bytes(self) -> Seq<u8> {
        self.object@
    }

    /// Creates an iterator over the bits of `obj`.
    pub fn new(obj: Vec<u8>) -> (it: BitIterator)
        requires
            obj@.len() * 8 <= usize::MAX,
        ensures
            it.bytes() == obj@,
            it.position() == 0,
    {
        BitIterator { object: obj, current_byte: 0, current_bit: 0 }
    }

    /// Yields the bit at the current position, as 0 or 1, and moves on; once every bit of the
    /// bytes has been yielded, returns `None` and stays where it is.
    pub fn next(&mut self) -> (r: Option<u8>)
        ensures
            final(self).bytes() == old(self).bytes(),
            final(self).position() <= final(self).bytes().len() * 8,
            old(self).position() < old(self).bytes().len() * 8 ==> {
                &&& r == Some(bit_value(old(self).bytes(), old(self).position()))
                &&& final(self).position() == old(self).position() + 1
            },
            old(self).position() >= old(self).bytes().len() * 8 ==> {
                &&& r is None
                &&& final(self).position() == old(self).position()
            },
    {
        proof {
            use_type_invariant(&*self);
        }
        if self.current_byte >= self.object.len() {
            return None;
        }
        let ghost pos = self.current_byte * 8 + self.current_bit;
        let ghost cb = self.current_byte as int;
        let ghost ci = self.current_bit as int;
        let result = (self.object[self.current_byte] >> (self.current_bit as u8)) & 0x1;
        if self.current_bit + 1 == 8 {
            self.current_bit = 0;
            self.current_byte = self.current_byte + 1;
        } else {
            self.current_bit = self.current_bit + 1;
        }
        proof {
            assert(pos / 8 == cb && pos % 8 == ci) by (nonlinear_arith)
                requires
                    pos == cb * 8 + ci,
                    0 <= ci < 8,
                    cb >= 0,
            ;
        }
        Some(result)
    }
}

/// The state of one side of a connection, apart from its UDP socket.
pub struct SackSocketCore<A> {
    pub connected_to: A,
    pub sender_connection_id: u16,
    pub receiver_connection_id: u16,
    pub seq_nr: u16,
    pub ack_nr: u16,
    pub state: UtpSocketState,
    /// Received but not acknowledged packets
    pub incoming_buffer: Vec<UtpPacket>,
    /// Sent but not yet acknowledged packets
    pub send_window: Vec<UtpPacket>,
    pub unsent_queue: VecDeque<UtpPacket>,
    pub duplicate_ack_count: u64,
    pub last_acked: u16,
    pub last_acked_timestamp: u32,
    pub rtt: i64,
    pub rtt_variance: i64,
    pub pending_data: Vec<u8>,
    pub curr_window: u64,
    pub remote_wnd_size: u64,
    pub current_delays: Vec<(u32, u32)>,
    pub base_delays: Vec<(u32, u32)>,
    pub congestion_timeout: u32,
    pub cwnd: u64,
}

impl<A> SackSocketCore<A> {
    /// What every operation keeps: the incoming buffer is sorted by sequence number without
    /// duplicates; the bytes in flight are those of the send window, each packet of which has a
    /// length that a `usize` holds; the congestion window is not empty; the round-trip estimate
    /// and its variance stay within what samples of 32-bit milliseconds give.
    pub open spec fn wf(&self) -> bool {
        &&& sorted_seq(self.incoming_buffer@)
        &&& self.curr_window == window_len(self.send_window@, 0)
        &&& forall|k: int| 0 <= k < self.send_window@.len() ==> plen(#[trigger] self.send_window@[k]) <= usize::MAX
        &&& self.cwnd > 0
        &&& 0 <= self.rtt <= 4_294_967
        &&& 0 <= self.rtt_variance <= 4_294_967
    }

    /// The header of the reply of type `t` to a packet with header `received`, made at `now`.
    pub open spec fn reply_header(&self, received: UtpPacketHeader, t: PacketType, now: u32) -> UtpPacketHeader {
        UtpPacketHeader {
            type_ver: with_type(1, t),
            timestamp_microseconds: now,
            timestamp_difference_microseconds: wrap_sub32(now, received.timestamp_microseconds),
            connection_id: self.sender_connection_id,
            seq_nr: self.seq_nr,
            ack_nr: self.ack_nr,
            ..new_raw_header()
        }
    }

    /// The state of a socket bound to `addr` with receiver identifier `r`: the sender's is
    /// `r + 1`, wrapping around.
    pub fn bind(addr: A, r: u16) -> (s: Self)
        ensures
            s.wf(),
            s.connected_to == addr,
            s.receiver_connection_id == r,
            s.sender_connection_id == wrap_add16(r, 1),
            s.seq_nr == 1,
            s.ack_nr == 0,
            s.state == UtpSocketState::New,
            s.incoming_buffer@.len() == 0,
            s.send_window@.len() == 0,
            s.unsent_queue@.len() == 0,
            s.duplicate_ack_count == 0,
            s.last_acked == 0,
            s.last_acked_timestamp == 0,
            s.rtt == 0,
            s.rtt_variance == 0,
            s.pending_data@.len() == 0,
            s.curr_window == 0,
            s.remote_wnd_size == 0,
            s.current_delays@.len() == 0,
            s.base_delays@.len() == 0,
            s.congestion_timeout == 1000,
            s.cwnd == SACK_INIT_CWND * SACK_MSS,
    {
        SackSocketCore {
            connected_to: addr,
            receiver_connection_id: r,
            sender_connection_id: r.wrapping_add(1),
            seq_nr: 1,
            ack_nr: 0,
            state: UtpSocketState::New,
            incoming_buffer: Vec::new(),
            send_window: Vec::new(),
            unsent_queue: VecDeque::new(),
            duplicate_ack_count: 0,
            last_acked: 0,
            last_acked_timestamp: 0,
            rtt: 0,
            rtt_variance: 0,
            pending_data: Vec::new(),
            curr_window: 0,
            remote_wnd_size: 0,
            current_delays: Vec::new(),
            base_delays: Vec::new(),
            // 1 second
            congestion_timeout: 1000,
            cwnd: SACK_INIT_CWND * SACK_MSS,
        }
    }

    /// Builds the reply of type `t` to a packet with header `received`, made at `now`.
    pub fn prepare_reply(&self, received: &UtpPacketHeader, t: PacketType, now: u32) -> (resp: UtpPacket)
        ensures
            resp.header == self.reply_header(*received, t, now),
            resp.extensions@.len() == 0,
            resp.payload@.len() == 0,
    {
        let mut resp = UtpPacket::new();
        resp.set_type(t);
        resp.header.timestamp_microseconds = now;
        resp.header.timestamp_difference_microseconds = now.wrapping_sub(received.timestamp_microseconds);
        resp.header.connection_id = self.sender_connection_id;
        resp.header.seq_nr = self.seq_nr;
        resp.header.ack_nr = self.ack_nr;
        resp
    }

    /// Whether the socket can still receive: a socket that read the end of the stream reports
    /// it once and closes; a closed one refuses.
    pub fn check_receive(&mut self) -> (r: Result<(), SackError>)
        ensures
            old(self).state == UtpSocketState::Eof ==> r == Err::<(), SackError>(SackError::EndOfFile)
                && *final(self) == (SackSocketCore { state: UtpSocketState::Closed, ..*old(self) }),
            old(self).state == UtpSocketState::Closed ==> r == Err::<(), SackError>(SackError::Closed)
                && *final(self) == *old(self),
            old(self).state != UtpSocketState::Eof && old(self).state != UtpSocketState::Closed ==> r is Ok
                && *final(self) == *old(self),
    {
        if self.state == UtpSocketState::Eof {
            self.state = UtpSocketState::Closed;
            return Err(SackError::EndOfFile);
        }
        if self.state == UtpSocketState::Closed {
            return Err(SackError::Closed);
        }
        Ok(())
    }

    /// The fast resend request sent at `now`: a State packet acknowledging the last packet
    /// received, with the time since the last acknowledgement came.
    pub fn fast_resend_request(&self, now: u32) -> (p: UtpPacket)
        ensures
            p.header == (UtpPacketHeader {
                type_ver: with_type(1, PacketType::State),
                wnd_size: SACK_BUF_SIZE as u32,
                ack_nr: self.ack_nr,
                seq_nr: self.seq_nr,
                connection_id: self.sender_connection_id,
                timestamp_microseconds: now,
                timestamp_difference_microseconds: wrap_sub32(now, self.last_acked_timestamp),
                ..new_raw_header()
            }),
            p.extensions@.len() == 0,
            p.payload@.len() == 0,
    {
        let mut packet = UtpPacket::new();
        packet.set_wnd_size(SACK_BUF_SIZE as u32);
        packet.set_type(PacketType::State);
        packet.header.ack_nr = self.ack_nr;
        packet.header.seq_nr = self.seq_nr;
        packet.header.connection_id = self.sender_connection_id;
        packet.header.timestamp_microseconds = now;
        packet.header.timestamp_difference_microseconds = now.wrapping_sub(self.last_acked_timestamp);
        packet
    }

    /// The SYN that opens a connection to `other`, made at `now`; the socket is then waiting
    /// for the reply.
    pub fn syn_packet(&mut self, other: A, now: u32) -> (p: UtpPacket)
        ensures
            p.header == (UtpPacketHeader {
                type_ver: with_type(1, PacketType::Syn),
                connection_id: old(self).receiver_connection_id,
                seq_nr: old(self).seq_nr,
                timestamp_microseconds: now,
                ..new_raw_header()
            }),
            p.extensions@.len() == 0,
            p.payload@.len() == 0,
            *final(self) == (SackSocketCore { connected_to: other, state: UtpSocketState::SynSent, ..*old(self) }),
    {
        self.connected_to = other;
        let mut packet = UtpPacket::new();
        packet.set_type(PacketType::Syn);
        packet.header.connection_id = self.receiver_connection_id;
        packet.header.seq_nr = self.seq_nr;
        packet.header.timestamp_microseconds = now;
        self.state = UtpSocketState::SynSent;
        packet
    }

    /// Takes the reply to the SYN: only a State packet completes the connection, taking its
    /// sequence number as the acknowledgement number and moving the socket's own on by one.
    pub fn complete_connection(&mut self, reply: &UtpPacket) -> (ok: bool)
        ensures
            ok == (type_known(reply.header) && type_of(reply.header) == PacketType::State),
            ok ==> *final(self) == (SackSocketCore {
                ack_nr: reply.header.seq_nr,
                state: UtpSocketState::Connected,
                seq_nr: wrap_add16(old(self).seq_nr, 1),
                ..*old(self)
            }),
            !ok ==> *final(self) == *old(self),
    {
        if reply.header.type_ver / 16 != 2 {
            proof {
                if type_known(reply.header) {
                    assert(crate::packet::type_number(type_of(reply.header)) == reply.header.type_ver / 16);
                }
            }
            return false;
        }
        self.ack_nr = reply.header.seq_nr;
        self.state = UtpSocketState::Connected;
        self.seq_nr = self.seq_nr.wrapping_add(1);
        true
    }

    /// The FIN that closes a connection, made at `now`; the socket then waits for the last
    /// acknowledgement.
    pub fn fin_packet(&mut self, now: u32) -> (p: UtpPacket)
        ensures
            p.header == (UtpPacketHeader {
                type_ver: with_type(1, PacketType::Fin),
                connection_id: old(self).sender_connection_id,
                seq_nr: old(self).seq_nr,
                ack_nr: old(self).ack_nr,
                timestamp_microseconds: now,
                ..new_raw_header()
            }),
            p.extensions@.len() == 0,
            p.payload@.len() == 0,
            *final(self) == (SackSocketCore { state: UtpSocketState::FinSent, ..*old(self) }),
    {
        let mut packet = UtpPacket::new();
        packet.header.connection_id = self.sender_connection_id;
        packet.header.seq_nr = self.seq_nr;
        packet.header.ack_nr = self.ack_nr;
        packet.header.timestamp_microseconds = now;
        packet.set_type(PacketType::Fin);
        self.state = UtpSocketState::FinSent;
        packet
    }

    /// Queues `buf` for sending at `now`, in data packets of at most `SACK_BUF_SIZE` bytes
    /// with consecutive sequence numbers, wrapping around; a closed socket refuses.
    pub fn queue_data(&mut self, buf: &[u8], now: u32) -> (r: Result<(), SackError>)
        ensures
            old(self).state == UtpSocketState::Closed ==> r == Err::<(), SackError>(SackError::Closed)
                && *final(self) == *old(self),
            old(self).state != UtpSocketState::Closed ==> {
                let n = sack_chunk_count(buf@.len());
                let q0 = old(self).unsent_queue@;
                &&& r is Ok
                &&& final(self).seq_nr == wrap_add16(old(self).seq_nr, n as int)
                &&& final(self).unsent_queue@.len() == q0.len() + n
                &&& final(self).unsent_queue@.subrange(0, q0.len() as int) == q0
                &&& forall|i: int| #![trigger final(self).unsent_queue@[q0.len() + i]] 0 <= i < n ==> {
                    let p = final(self).unsent_queue@[q0.len() + i];
                    &&& p.header == (UtpPacketHeader {
                        type_ver: with_type(1, PacketType::Data),
                        timestamp_microseconds: now,
                        seq_nr: wrap_add16(old(self).seq_nr, i),
                        ack_nr: old(self).ack_nr,
                        connection_id: old(self).sender_connection_id,
                        ..new_raw_header()
                    })
                    &&& p.extensions@.len() == 0
                    &&& p.payload@ == buf@.subrange(i * SACK_BUF_SIZE, sack_chunk_end(buf@.len(), i))
                }
                &&& *final(self) == (SackSocketCore { seq_nr: final(self).seq_nr, unsent_queue: final(self).unsent_queue, ..*old(self) })
            },
    {
        if self.state == UtpSocketState::Closed {
            return Err(SackError::Closed);
        }
        let total = buf.len();
        let ghost q0 = self.unsent_queue@;
        let ghost seq0 = self.seq_nr;
        let mut start: usize = 0;
        let mut i: usize = 0;
        while start < total
            invariant
                total == buf@.len(),
                start <= total,
                start < total ==> start == i * SACK_BUF_SIZE && i < sack_chunk_count(buf@.len()),
                start >= total ==> i == sack_chunk_count(buf@.len()),
                self.seq_nr == wrap_add16(seq0, i as int),
                self.unsent_queue@.len() == q0.len() + i,
                self.unsent_queue@.subrange(0, q0.len() as int) == q0,
                forall|j: int| #![trigger self.unsent_queue@[q0.len() + j]] 0 <= j < i ==> {
                    let p = self.unsent_queue@[q0.len() + j];
                    &&& p.header == (UtpPacketHeader {
                        type_ver: with_type(1, PacketType::Data),
                        timestamp_microseconds: now,
                        seq_nr: wrap_add16(seq0, j),
                        ack_nr: self.ack_nr,
                        connection_id: self.sender_connection_id,
                        ..new_raw_header()
                    })
                    &&& p.extensions@.len() == 0
                    &&& p.payload@ == buf@.subrange(j * SACK_BUF_SIZE, sack_chunk_end(buf@.len(), j))
                },
                *self == (SackSocketCore { seq_nr: self.seq_nr, unsent_queue: self.unsent_queue, ..*old(self) }),
            decreases total - start,
        {
            let end: usize = if total - start >= SACK_BUF_SIZE {
                start + SACK_BUF_SIZE
            } else {
                total
            };
            let mut packet = UtpPacket::new();
            packet.set_type(PacketType::Data);
            packet.payload = slice_to_vec(&buf[start..end]);
            packet.header.timestamp_microseconds = now;
            packet.header.seq_nr = self.seq_nr;
            packet.header.ack_nr = self.ack_nr;
            packet.header.connection_id = self.sender_connection_id;
            let ghost before = self.unsent_queue@;
            self.unsent_queue.push_back(packet);
            self.seq_nr = self.seq_nr.wrapping_add(1);
            proof {
                assert(self.unsent_queue@.subrange(0, q0.len() as int) =~= q0);
                assert(self.unsent_queue@[q0.len() + i] == packet);
                assert(end == sack_chunk_end(buf@.len(), i as int));
                assert forall|j: int| #![trigger self.unsent_queue@[q0.len() + j]] 0 <= j < i + 1 implies {
                    let p = self.unsent_queue@[q0.len() + j];
                    &&& p.header == (UtpPacketHeader {
                        type_ver: with_type(1, PacketType::Data),
                        timestamp_microseconds: now,
                        seq_nr: wrap_add16(seq0, j),
                        ack_nr: self.ack_nr,
                        connection_id: self.sender_connection_id,
                        ..new_raw_header()
                    })
                    &&& p.extensions@.len() == 0
                    &&& p.payload@ == buf@.subrange(j * SACK_BUF_SIZE, sack_chunk_end(buf@.len(), j))
                } by {
                    if j < i {
                        assert(self.unsent_queue@[q0.len() + j] == before[q0.len() + j]);
                    }
                }
                let n = buf@.len();
                if end < total {
                    assert((i + 1) * 1500 < n);
                    assert(i + 1 < sack_chunk_count(n)) by (nonlinear_arith)
                        requires
                            (i + 1) * 1500 < n,
                            sack_chunk_count(n) == (if n == 0 { 0 } else { ((n - 1) / 1500 + 1) as nat }),
                    ;
                } else {
                    assert(i + 1 == sack_chunk_count(n)) by (nonlinear_arith)
                        requires
                            i * 1500 < n,
                            n <= (i + 1) * 1500,
                            sack_chunk_count(n) == (if n == 0 { 0 } else { ((n - 1) / 1500 + 1) as nat }),
                    ;
                }
            }
            assert(end < total ==> end == (i + 1) * SACK_BUF_SIZE);
            start = end;
            i = i + 1;
        }
        Ok(())
    }

    /// Whether the socket has sent every queued packet and the last one was acknowledged: the
    /// last acknowledged number is not below the last sequence number used.
    pub fn all_acknowledged(&self) -> (b: bool)
        ensures
            b == !(self.last_acked < wrap_sub16(self.seq_nr, 1)),
    {
        !(self.last_acked < self.seq_nr.wrapping_sub(1))
    }

    /// Takes the next packet waiting to be sent, if any.
    pub fn next_unsent(&mut self) -> (r: Option<UtpPacket>)
        ensures
            old(self).unsent_queue@.len() == 0 ==> r is None && final(self).unsent_queue@ == old(self).unsent_queue@,
            old(self).unsent_queue@.len() > 0 ==> r == Some(old(self).unsent_queue@[0])
                && final(self).unsent_queue@ == old(self).unsent_queue@.drop_first(),
            *final(self) == (SackSocketCore { unsent_queue: final(self).unsent_queue, ..*old(self) }),
    {
        let r = self.unsent_queue.pop_front();
        proof {
            if old(self).unsent_queue@.len() > 0 {
                assert(self.unsent_queue@ =~= old(self).unsent_queue@.drop_first());
            }
        }
        r
    }

    /// Whether sending `packet` now would take the bytes in flight past the congestion window,
    /// so that the socket must first wait for acknowledgements.
    pub fn window_full(&self, packet: &UtpPacket) -> (b: bool)
        requires
            self.curr_window + plen(*packet) <= u64::MAX,
            plen(*packet) <= usize::MAX,
        ensures
            b == (self.curr_window + plen(*packet) > self.cwnd),
    {
        let len = packet.len() as u64;
        self.curr_window + len > self.cwnd
    }

    /// Records a packet as sent: it joins the send window and its bytes count as in flight.
    pub fn record_sent(&mut self, packet: UtpPacket)
        requires
            old(self).wf(),
            old(self).curr_window + plen(packet) <= u64::MAX,
            plen(packet) <= usize::MAX,
        ensures
            final(self).wf(),
            final(self).curr_window == old(self).curr_window + plen(packet),
            final(self).send_window@ == old(self).send_window@.push(packet),
            *final(self) == (SackSocketCore {
                curr_window: final(self).curr_window,
                send_window: final(self).send_window,
                ..*old(self)
            }),
    {
        let len = packet.len() as u64;
        proof {
            lemma_window_len_push(self.send_window@, packet, 0);
        }
        self.curr_window = self.curr_window + len;
        self.send_window.push(packet);
    }

    /// Inserts a new base delay sample taken at `now`, after dropping those more than two
    /// minutes old.
    pub fn update_base_delay(&mut self, v: u32, now: u32)
        ensures
            final(self).base_delays@ == fresh_samples(old(self).base_delays@, now).push((now, v)),
            ({
                let kept = final(self).base_delays@.drop_last();
                let n = old(self).base_delays@.len() - kept.len();
                &&& final(self).base_delays@.last() == (now, v)
                &&& 0 <= n
                &&& kept == old(self).base_delays@.subrange(n, old(self).base_delays@.len() as int)
                &&& forall|i: int| 0 <= i < n ==> stale(#[trigger] old(self).base_delays@[i].0, now)
                &&& kept.len() > 0 ==> !stale(kept[0].0, now)
            }),
            *final(self) == (SackSocketCore { base_delays: final(self).base_delays, ..*old(self) }),
    {
        // Remove measurements more than 2 minutes old
        while self.base_delays.len() > 0 && now.wrapping_sub(self.base_delays[0].0) > SAMPLE_AGE
            invariant
                fresh_samples(self.base_delays@, now) == fresh_samples(old(self).base_delays@, now),
                *self == (SackSocketCore { base_delays: self.base_delays, ..*old(self) }),
            decreases self.base_delays@.len(),
        {
            let ghost before = self.base_delays@;
            self.base_delays.remove(0);
            assert(self.base_delays@ =~= before.drop_first());
        }
        // Insert new measurement
        self.base_delays.push((now, v));
        proof {
            law_stale_samples_dropped(old(self).base_delays@, now);
            assert(self.base_delays@.drop_last() =~= fresh_samples(old(self).base_delays@, now));
        }
    }

    /// Inserts a new current delay sample taken at `now`, after dropping those more than two
    /// minutes old.
    pub fn update_current_delay(&mut self, v: u32, now: u32)
        ensures
            final(self).current_delays@ == fresh_samples(old(self).current_delays@, now).push((now, v)),
            ({
                let kept = final(self).current_delays@.drop_last();
                let n = old(self).current_delays@.len() - kept.len();
                &&& final(self).current_delays@.last() == (now, v)
                &&& 0 <= n
                &&& kept == old(self).current_delays@.subrange(n, old(self).current_delays@.len() as int)
                &&& forall|i: int| 0 <= i < n ==> stale(#[trigger] old(self).current_delays@[i].0, now)
                &&& kept.len() > 0 ==> !stale(kept[0].0, now)
            }),
            *final(self) == (SackSocketCore { current_delays: final(self).current_delays, ..*old(self) }),
    {
        // Remove measurements more than 2 minutes old
        while self.current_delays.len() > 0 && now.wrapping_sub(self.current_delays[0].0) > SAMPLE_AGE
            invariant
                fresh_samples(self.current_delays@, now) == fresh_samples(old(self).current_delays@, now),
                *self == (SackSocketCore { current_delays: self.current_delays, ..*old(self) }),
            decreases self.current_delays@.len(),
        {
            let ghost before = self.current_delays@;
            self.current_delays.remove(0);
            assert(self.current_delays@ =~= before.drop_first());
        }
        // Insert new measurement
        self.current_delays.push((now, v));
        proof {
            law_stale_samples_dropped(old(self).current_delays@, now);
            assert(self.current_delays@.drop_last() =~= fresh_samples(old(self).current_delays@, now));
        }
    }

    /// Updates the round-trip estimate and its variance with a sample of `current_delay`
    /// milliseconds, and derives the congestion timeout from them.
    pub fn update_congestion_timeout(&mut self, current_delay: i64)
        requires
            old(self).wf(),
            0 <= current_delay <= 4_294_967,
        ensures
            final(self).wf(),
            final(self).rtt_variance == next_rtt_variance(old(self).rtt as int, old(self).rtt_variance as int, current_delay as int),
            final(self).rtt == next_rtt(old(self).rtt as int, current_delay as int),
            final(self).congestion_timeout == timeout_for(final(self).rtt as int, final(self).rtt_variance as int),
            500 <= final(self).rtt + 4 * final(self).rtt_variance <= 60_000 ==> final(self).congestion_timeout
                == final(self).rtt + 4 * final(self).rtt_variance,
            *final(self) == (SackSocketCore {
                rtt: final(self).rtt,
                rtt_variance: final(self).rtt_variance,
                congestion_timeout: final(self).congestion_timeout,
                ..*old(self)
            }),
    {
        let delta: i64 = self.rtt - current_delay;
        let abs_delta: i64 = if delta >= 0 { delta } else { -delta };
        self.rtt_variance = self.rtt_variance + div_i64_toward_zero(abs_delta - self.rtt_variance, 4);
        self.rtt = self.rtt + div_i64_toward_zero(current_delay - self.rtt, 8);
        let t: i64 = self.rtt + self.rtt_variance * 4;
        let t: u32 = if t >= 500 { t as u32 } else { 500 };
        self.congestion_timeout = if t <= 60_000 { t } else { 60_000 };
    }

    /// Inserts a packet into the socket's buffer, in ascending order of sequence number; a
    /// packet of the same sequence number as one already there replaces it.
    pub fn insert_into_buffer(&mut self, packet: UtpPacket)
        requires
            old(self).wf(),
        ensures
            final(self).wf(),
            final(self).incoming_buffer@ == sack_buffer_insert(old(self).incoming_buffer@, packet),
            *final(self) == (SackSocketCore { incoming_buffer: final(self).incoming_buffer, ..*old(self) }),
    {
        let ghost s = self.incoming_buffer@;
        let x = packet.header.seq_nr;
        let n = self.incoming_buffer.len();
        let mut i: usize = 0;
        while i < n && self.incoming_buffer[i].header.seq_nr < x
            invariant
                n == s.len(),
                s == self.incoming_buffer@,
                i <= n,
                forall|j: int| 0 <= j < i ==> sq(#[trigger] s[j]) < x,
                *self == *old(self),
            decreases n - i,
        {
            i = i + 1;
        }
        proof {
            lemma_first_not_below(s, x, i as int);
        }
        if i < n && self.incoming_buffer[i].header.seq_nr == x {
            self.incoming_buffer.remove(i);
        }
        self.incoming_buffer.insert(i, packet);
        proof {
            let t = self.incoming_buffer@;
            assert(t == sack_buffer_insert(s, packet));
            assert forall|a: int, b: int| 0 <= a < b < t.len() implies sq(#[trigger] t[a]) < sq(#[trigger] t[b]) by {
                let dup = i < n && sq(s[i as int]) == x;
                let off: int = if dup { 1 } else { 0 };
                if a < i && b < i {
                } else if a < i && b == i {
                } else if a < i {
                    assert(t[b] == s[b - 1 + off]);
                } else if a == i {
                    assert(t[b] == s[b - 1 + off]);
                    assert(sq(s[b - 1 + off]) >= x);
                    if dup {
                        assert(sq(s[i as int]) < sq(s[b - 1 + off]));
                    }
                } else {
                    assert(t[a] == s[a - 1 + off]);
                    assert(t[b] == s[b - 1 + off]);
                }
            }
        }
    }

    /// The state after taking in a packet with header `h`: acknowledged where it strictly
    /// follows the previous one, and the peer's window noted.
    pub open spec fn received(&self, h: UtpPacketHeader) -> Self {
        SackSocketCore {
            ack_nr: if wrap_add16(self.ack_nr, 1) == h.seq_nr {
                h.seq_nr
            } else {
                self.ack_nr
            },
            remote_wnd_size: h.wnd_size as u64,
            ..*self
        }
    }

    /// What handling `p`, received at `now`, does: `new` is the state after it and `r` its
    /// result, where `fresh` is the sequence number a listening socket takes on a SYN.
    pub open spec fn handles(&self, new: Self, p: UtpPacket, now: u32, fresh: u16, r: SackReply) -> bool {
        let h = p.header;
        let t = type_of(h);
        let a = self.received(h);
        if t != PacketType::Syn && !(h.connection_id == self.sender_connection_id || h.connection_id
            == self.receiver_connection_id) {
            &&& new == *self
            &&& r matches SackReply::Send(q) && q.header == self.reply_header(h, PacketType::Reset, now)
                && q.extensions@.len() == 0 && q.payload@.len() == 0
        } else {
            match t {
                PacketType::Syn => {
                    let c = SackSocketCore {
                        ack_nr: h.seq_nr,
                        seq_nr: fresh,
                        receiver_connection_id: wrap_add16(h.connection_id, 1),
                        sender_connection_id: h.connection_id,
                        state: UtpSocketState::Connected,
                        ..a
                    };
                    &&& new == c
                    &&& r matches SackReply::Send(q) && q.header == c.reply_header(h, PacketType::State, now)
                        && q.extensions@.len() == 0 && q.payload@.len() == 0
                },
                PacketType::Data => {
                    let base = a.reply_header(h, PacketType::State, now);
                    let sack = sack_of(a.incoming_buffer@, a.ack_nr);
                    &&& new == a
                    &&& r matches SackReply::Send(q) && q.payload@.len() == 0 && if wrap_add16(a.ack_nr, 1) < h.seq_nr
                        && sack.len() > 0 {
                        &&& q.header == (UtpPacketHeader { extension: 1, ..base })
                        &&& ext_data(q.extensions@) == seq![sack]
                    } else {
                        &&& q.header == base
                        &&& q.extensions@.len() == 0
                    }
                },
                PacketType::Fin => {
                    if a.pending_data@.len() == 0 && a.incoming_buffer@.len() == 0 && a.ack_nr == h.seq_nr {
                        &&& new == (SackSocketCore { state: UtpSocketState::Eof, ..a })
                        &&& r matches SackReply::Send(q) && q.header == a.reply_header(h, PacketType::State, now)
                            && q.extensions@.len() == 0 && q.payload@.len() == 0
                    } else {
                        &&& new == (SackSocketCore { state: UtpSocketState::FinReceived, ..a })
                        &&& r matches SackReply::Nothing
                    }
                },
                PacketType::State => {
                    &&& new == a
                    &&& r matches SackReply::ProcessState
                },
                PacketType::Reset => {
                    &&& new == (SackSocketCore { state: UtpSocketState::RstReceived, ..a })
                    &&& r matches SackReply::Nothing
                },
            }
        }
    }

    /// Builds the selective acknowledgement of the incoming buffer.
    pub fn build_selective_ack(&self) -> (r: Vec<u8>)
        ensures
            r@ == sack_of(self.incoming_buffer@, self.ack_nr),
    {
        let ghost s = self.incoming_buffer@;
        let n = self.incoming_buffer.len();
        let mut sack: Vec<u8> = Vec::new();
        let mut k: usize = 0;
        while k < n
            invariant
                n == s.len(),
                s == self.incoming_buffer@,
                k <= n,
                sack@ == sack_bits_of(s, self.ack_nr, k as int),
                sack@.len() <= 8192,
            decreases n - k,
        {
            let seq_nr = self.incoming_buffer[k].header.seq_nr;
            if seq_nr > self.ack_nr {
                let diff: u16 = seq_nr.wrapping_sub(self.ack_nr).wrapping_sub(2);
                let byte: usize = (diff / 8) as usize;
                let bit: u8 = (diff % 8) as u8;
                let ghost prev = sack@;
                if byte >= sack.len() {
                    sack.push(0u8);
                }
                let last = sack.len() - 1;
                let b = sack[last];
                sack.set(last, b | (1u8 << bit));
                assert(sack@ =~= sack_step(prev, diff));
            }
            k = k + 1;
        }
        // Make sure the amount of elements in the SACK vector is a multiple of 4
        let ghost bits = sack@;
        if sack.len() % 4 != 0 {
            let len = sack.len();
            let target = (len / 4 + 1) * 4;
            while sack.len() < target
                invariant
                    len == bits.len(),
                    target == (len / 4 + 1) * 4,
                    len <= sack@.len() <= target,
                    sack@.subrange(0, len as int) == bits,
                    forall|j: int| len <= j < sack@.len() ==> sack@[j] == 0u8,
                decreases target - sack@.len(),
            {
                sack.push(0u8);
            }
            assert(sack@ =~= pad4(bits));
        }
        sack
    }

    /// Handles an incoming packet, updating socket state accordingly; `fresh_seq_nr` is the
    /// sequence number a listening socket takes on a SYN.
    ///
    /// Returns the appropriate reply, if any; an acknowledgement is processed next.
    pub fn handle_packet(&mut self, packet: &UtpPacket, now: u32, fresh_seq_nr: u16) -> (r: SackReply)
        requires
            type_known(packet.header),
        ensures
            old(self).handles(*final(self), *packet, now, fresh_seq_nr, r),
    {
        let t = packet.get_type();
        // Reset connection if connection id doesn't match and this isn't a SYN
        if t != PacketType::Syn && !(packet.connection_id() == self.sender_connection_id
            || packet.connection_id() == self.receiver_connection_id) {
            return SackReply::Send(self.prepare_reply(&packet.header, PacketType::Reset, now));
        }
        // Acknowledge only if the packet strictly follows the previous one
        if self.ack_nr.wrapping_add(1) == packet.seq_nr() {
            self.ack_nr = packet.seq_nr();
        }
        self.remote_wnd_size = packet.wnd_size() as u64;
        match t {
            PacketType::Syn => {
                // Update socket information for new connections
                self.ack_nr = packet.seq_nr();
                self.seq_nr = fresh_seq_nr;
                self.receiver_connection_id = packet.connection_id().wrapping_add(1);
                self.sender_connection_id = packet.connection_id();
                self.state = UtpSocketState::Connected;
                SackReply::Send(self.prepare_reply(&packet.header, PacketType::State, now))
            },
            PacketType::Data => {
                let mut reply = self.prepare_reply(&packet.header, PacketType::State, now);
                if self.ack_nr.wrapping_add(1) < packet.seq_nr() {
                    // Set SACK extension payload if the packet is not in order
                    let sack = self.build_selective_ack();
                    if sack.len() > 0 {
                        let ghost data = sack@;
                        reply.set_sack(Some(sack));
                        assert(0u8 | 1u8 == 1u8) by (bit_vector);
                        assert(ext_data(reply.extensions@) =~= seq![data]);
                    }
                }
                SackReply::Send(reply)
            },
            PacketType::Fin => {
                self.state = UtpSocketState::FinReceived;
                // If all packets are received and handled
                if self.pending_data.len() == 0 && self.incoming_buffer.len() == 0 && self.ack_nr
                    == packet.seq_nr() {
                    self.state = UtpSocketState::Eof;
                    SackReply::Send(self.prepare_reply(&packet.header, PacketType::State, now))
                } else {
                    SackReply::Nothing
                }
            },
            PacketType::State => SackReply::ProcessState,
            PacketType::Reset => {
                self.state = UtpSocketState::RstReceived;
                SackReply::Nothing
            },
        }
    }

    /// Counts an acknowledgement received at `now`: a repeated one counts as a duplicate, a new
    /// one becomes the last acknowledged and resets the count to one. Its timestamp and its
    /// timestamp difference, read in the wrong byte order, join the base and current delay
    /// samples.
    pub fn register_state(&mut self, packet: &UtpPacket, now: u32)
        ensures
            ({
                let h = packet.header;
                let s0 = *old(self);
                let counted = if h.ack_nr == s0.last_acked {
                    SackSocketCore { duplicate_ack_count: wrap_add64(s0.duplicate_ack_count, 1), ..s0 }
                } else {
                    SackSocketCore { last_acked: h.ack_nr, last_acked_timestamp: now, duplicate_ack_count: 1, ..s0 }
                };
                *final(self) == (SackSocketCore {
                    base_delays: final(self).base_delays,
                    current_delays: final(self).current_delays,
                    ..counted
                })
                && final(self).base_delays@ == fresh_samples(s0.base_delays@, now).push((now, swap32(h.timestamp_microseconds)))
                && final(self).current_delays@ == fresh_samples(s0.current_delays@, now).push(
                    (now, swap32(h.timestamp_difference_microseconds)),
                )
            }),
    {
        if packet.ack_nr() == self.last_acked {
            self.duplicate_ack_count = self.duplicate_ack_count.wrapping_add(1);
        } else {
            self.last_acked = packet.ack_nr();
            self.last_acked_timestamp = now;
            self.duplicate_ack_count = 1;
        }
        self.update_base_delay(swap_bytes32(packet.header.timestamp_microseconds), now);
        self.update_current_delay(swap_bytes32(packet.header.timestamp_difference_microseconds), now);
    }

    /// The second of the least base delay sample, in the order of pairs.
    fn least_base_delay(&self) -> (d: u32)
        requires
            self.base_delays@.len() > 0,
        ensures
            d == least_pair(self.base_delays@).1,
    {
        let n = self.base_delays.len();
        let mut m: (u32, u32) = self.base_delays[0];
        let mut i: usize = 1;
        while i < n
            invariant
                n == self.base_delays@.len(),
                1 <= i <= n,
                m == least_pair(self.base_delays@.subrange(0, i as int)),
            decreases n - i,
        {
            proof {
                assert(self.base_delays@.subrange(0, i as int + 1).drop_last() =~= self.base_delays@.subrange(0, i as int));
            }
            let x = self.base_delays[i];
            if x.0 < m.0 || (x.0 == m.0 && x.1 < m.1) {
                m = x;
            }
            i = i + 1;
        }
        assert(self.base_delays@.subrange(0, n as int) =~= self.base_delays@);
        m.1
    }

    /// Appends to `out` a copy of the first packet of the send window with sequence number
    /// `x`, if any.
    fn push_found(&self, x: u16, out: &mut Vec<UtpPacket>)
        ensures
            views(final(out)@) == views(old(out)@ + find_seq(self.send_window@, x)),
    {
        proof {
            lemma_first_with(self.send_window@, x);
        }
        let n = self.send_window.len();
        let mut i: usize = 0;
        while i < n
            invariant
                n == self.send_window@.len(),
                i <= n,
                forall|j: int| 0 <= j < i ==> sq(#[trigger] self.send_window@[j]) != x,
                *out == *old(out),
            decreases n - i,
        {
            if self.send_window[i].header.seq_nr == x {
                proof {
                    lemma_first_with(self.send_window@, x);
                    let f = first_with(self.send_window@, x);
                    if 0 <= f < i {
                        assert(sq(self.send_window@[f]) != x);
                    }
                    assert(sq(self.send_window@[i as int]) == x);
                }
                let c = self.send_window[i].clone();
                let ghost before = out@;
                out.push(c);
                assert(views(out@) =~= views(before + find_seq(self.send_window@, x)));
                return;
            }
            i = i + 1;
        }
        proof {
            lemma_first_with(self.send_window@, x);
            assert(old(out)@ + find_seq(self.send_window@, x) =~= old(out)@);
        }
    }

    /// Appends to `out` the packets to resend on the selective acknowledgement `ext` in an
    /// acknowledgement of `ack`.
    #[verifier::spinoff_prover]
    #[verifier::rlimit(50)]
    fn push_ext_resends(&self, ext: &UtpExtension, ack: u16, out: &mut Vec<UtpPacket>)
        requires
            ext.data@.len() > 0,
            ext.data@.len() * 8 <= usize::MAX,
        ensures
            views(final(out)@) == views(old(out)@ + ext_resends(self.send_window@, ext.data@, ack, self.seq_nr)),
    {
        let ghost data = ext.data@;
        let ghost bits = yielded_bits(data);
        let ghost sw = self.send_window@;
        // If three or more packets are acknowledged past the implicit missing one, assume it
        // was lost.
        let mut it = BitIterator::new(ext.data.clone());
        let mut ones: u64 = 0;
        let mut done = false;
        while !done
            invariant
                it.bytes() == data,
                data.len() > 0,
                data.len() * 8 <= usize::MAX,
                bits == yielded_bits(data),
                !done ==> it.position() <= bits.len(),
                !done ==> ones == count_set(bits, it.position()),
                done ==> ones == count_set(bits, bits.len() as int),
                ones <= it.position(),
                it.position() <= data.len() * 8,
            decreases data.len() * 8 - it.position() + if done { 0int } else { 1int },
        {
            let ghost p = it.position();
            match it.next() {
                None => {
                    done = true;
                },
                Some(bit) => {
                    if bit == 1 {
                        ones = ones + 1;
                    }
                    assert(bits[p] == bit);
                },
            }
        }
        let ghost mid = out@;
        if ones >= 3 {
            self.push_found(ack.wrapping_add(1), out);
        }
        let ghost first = if count_set(bits, bits.len() as int) >= 3 {
            find_seq(sw, wrap_add16(ack, 1))
        } else {
            Seq::empty()
        };
        assert(views(out@) == views(mid + first));
        let mut it = BitIterator::new(ext.data.clone());
        let mut idx: usize = 0;
        let ghost total = lost_scan(bits, ack, self.seq_nr, 0);
        let ghost mut named: Seq<u16> = Seq::empty();
        let mut done = false;
        while !done
            invariant
                it.bytes() == data,
                data.len() > 0,
                data.len() * 8 <= usize::MAX,
                bits == yielded_bits(data),
                sw == self.send_window@,
                !done ==> it.position() == idx,
                idx <= bits.len(),
                views(out@) == views(mid + first + finds(sw, named)),
                !done ==> named + lost_scan(bits, ack, self.seq_nr, idx as int) == total,
                done ==> named == total,
            decreases data.len() * 8 - idx + if done { 0int } else { 1int },
        {
            match it.next() {
                None => {
                    done = true;
                    assert(lost_scan(bits, ack, self.seq_nr, idx as int) =~= Seq::<u16>::empty());
                    assert(named + Seq::<u16>::empty() =~= named);
                },
                Some(received) => {
                    assert(bits[idx as int] == received);
                    let seq_nr = ack.wrapping_add(2u16.wrapping_add((idx % 65536) as u16));
                    assert(seq_nr == wrap_add16(ack, 2 + (idx % 65536)));
                    if received == 1 {
                    } else if seq_nr < self.seq_nr {
                        let ghost before = out@;
                        self.push_found(seq_nr, out);
                        proof {
                            assert(named.push(seq_nr) + lost_scan(bits, ack, self.seq_nr, idx as int + 1) =~= named
                                + lost_scan(bits, ack, self.seq_nr, idx as int));
                            assert(finds(sw, named.push(seq_nr)) == finds(sw, named) + find_seq(sw, seq_nr)) by {
                                assert(named.push(seq_nr).drop_last() =~= named);
                            }
                            assert(mid + first + finds(sw, named.push(seq_nr)) =~= (mid + first + finds(sw, named)) + find_seq(sw, seq_nr));
                            lemma_views_append(before, mid + first + finds(sw, named), find_seq(sw, seq_nr));
                            named = named.push(seq_nr);
                        }
                    } else {
                        done = true;
                        assert(named + Seq::<u16>::empty() =~= named);
                    }
                    if !done {
                        idx = idx + 1;
                    }
                },
            }
        }
        proof {
            assert(mid + first + finds(sw, total) =~= mid + ext_resends(sw, data, ack, self.seq_nr));
        }
    }

    /// Changes the congestion window after an acknowledgement of `bytes` bytes, given the
    /// filtered current delay `filtered`.
    fn adjust_congestion_window(&mut self, bytes: u64, filtered: u32)
        requires
            old(self).cwnd > 0,
            old(self).base_delays@.len() > 0,
        ensures
            *final(self) == (SackSocketCore {
                cwnd: next_cwnd(old(self).cwnd, old(self).curr_window, bytes, filtered, least_pair(old(self).base_delays@).1),
                ..*old(self)
            }),
            filtered == least_pair(old(self).base_delays@).1 && old(self).cwnd >= 2800 && bytes * 1400 <= u64::MAX
                && old(self).curr_window + 1400 <= u64::MAX && old(self).cwnd + bytes * 1400 / (old(self).cwnd as int)
                <= old(self).curr_window + 1400 ==> final(self).cwnd == old(self).cwnd + bytes * 1400 / (old(
                self,
            ).cwnd as int),
    {
        proof {
            if filtered == least_pair(old(self).base_delays@).1 && old(self).cwnd >= 2800 && bytes * 1400 <= u64::MAX
                && old(self).curr_window + 1400 <= u64::MAX && old(self).cwnd + bytes * 1400 / (old(self).cwnd as int)
                <= old(self).curr_window + 1400 {
                law_window_grows_without_queuing(old(self).cwnd, old(self).curr_window, bytes, filtered);
            }
        }
        let flightsize = self.curr_window;
        let queuing_delay = filtered.wrapping_sub(self.least_base_delay());
        let off_target: u32 = SACK_TARGET.wrapping_sub(queuing_delay) / SACK_TARGET;
        let increase = (off_target as u64).wrapping_mul(bytes).wrapping_mul(SACK_MSS) / self.cwnd;
        self.cwnd = self.cwnd.wrapping_add(increase);
        let max_allowed_cwnd = flightsize.wrapping_add(SACK_ALLOWED_INCREASE * SACK_MSS);
        if self.cwnd > max_allowed_cwnd {
            self.cwnd = max_allowed_cwnd;
        }
        if self.cwnd < SACK_MIN_CWND * SACK_MSS {
            self.cwnd = SACK_MIN_CWND * SACK_MSS;
        }
    }

    /// Appends to `out` copies of the packets of the send window, from the first on, as long as
    /// their sequence number is at most `x`.
    fn push_up_to(&self, x: u16, out: &mut Vec<UtpPacket>)
        ensures
            views(final(out)@) == views(old(out)@ + take_up_to(self.send_window@, x, 0)),
    {
        let ghost sw = self.send_window@;
        let ghost mut mid = out@;
        let n = self.send_window.len();
        let mut i: usize = 0;
        while i < n && self.send_window[i].header.seq_nr <= x
            invariant
                sw == self.send_window@,
                n == sw.len(),
                i <= n,
                views(out@) == views(mid),
                mid + take_up_to(sw, x, i as int) == old(out)@ + take_up_to(sw, x, 0),
            decreases n - i,
        {
            let c = self.send_window[i].clone();
            let ghost before = out@;
            out.push(c);
            proof {
                lemma_views_push(before, mid, c, sw[i as int]);
                assert(mid.push(sw[i as int]) + take_up_to(sw, x, i + 1) =~= mid + take_up_to(sw, x, i as int));
                mid = mid.push(sw[i as int]);
            }
            i = i + 1;
        }
        proof {
            assert(take_up_to(sw, x, i as int) =~= Seq::<UtpPacket>::empty());
            assert(mid + Seq::<UtpPacket>::empty() =~= mid);
        }
    }

    /// Forgets the sent packets that the remote peer acknowledged: those up to the first one
    /// whose sequence number is the last acknowledged. Where no packet has that number, none is
    /// forgotten.
    #[verifier::rlimit(50)]
    pub fn advance_send_window(&mut self)
        requires
            old(self).wf(),
        ensures
            final(self).wf(),
            ({
                let sw = old(self).send_window@;
                let i = first_with(sw, old(self).last_acked);
                &&& i < 0 ==> *final(self) == *old(self)
                &&& i >= 0 ==> final(self).send_window@ == sw.skip(i + 1)
            }),
            *final(self) == (SackSocketCore {
                send_window: final(self).send_window,
                curr_window: final(self).curr_window,
                ..*old(self)
            }),
    {
        proof {
            lemma_first_with(self.send_window@, self.last_acked);
        }
        let ghost sw = self.send_window@;
        let n: usize = self.send_window.len();
        let mut position: usize = 0;
        while position < n && self.send_window[position].header.seq_nr != self.last_acked
            invariant
                sw == self.send_window@,
                n == sw.len(),
                position <= n,
                forall|j: int| 0 <= j < position ==> sq(#[trigger] sw[j]) != self.last_acked,
                *self == *old(self),
            decreases n - position,
        {
            position = position + 1;
        }
        if position == n {
            proof {
                lemma_first_with(sw, self.last_acked);
            }
            return;
        }
        proof {
            lemma_first_with(sw, self.last_acked);
            let f = first_with(sw, self.last_acked);
            if 0 <= f < position {
                assert(sq(sw[f]) != self.last_acked);
            }
            assert(sq(sw[position as int]) == self.last_acked);
        }
        let mut j: usize = 0;
        while j <= position
            invariant
                n == sw.len(),
                position < n,
                forall|k: int| 0 <= k < sw.len() ==> plen(#[trigger] sw[k]) <= usize::MAX,
                j <= position + 1,
                self.send_window@ == sw.skip(j as int),
                self.curr_window == window_len(sw, j as int),
                *self == (SackSocketCore {
                    send_window: self.send_window,
                    curr_window: self.curr_window,
                    ..*old(self)
                }),
            decreases position + 1 - j,
        {
            proof {
                assert(sw.skip(j as int)[0] == sw[j as int]);
            }
            let packet = self.send_window.remove(0);
            proof {
                assert(self.send_window@ =~= sw.skip(j as int + 1));
            }
            let len = packet.len() as u64;
            self.curr_window = self.curr_window - len;
            j = j + 1;
        }
        proof {
            lemma_window_len_skip(sw, position as int + 1, 0);
            assert forall|k: int| 0 <= k < self.send_window@.len() implies plen(#[trigger] self.send_window@[k]) <= usize::MAX by {
                assert(self.send_window@[k] == sw[k + position + 1]);
            }
        }
    }

    /// Processes an acknowledgement after it was counted: the congestion window follows the
    /// queuing delay that `filtered`, the filtered current delay, and the least base delay
    /// give; the round-trip estimate takes the packet's timestamp difference in milliseconds;
    /// the packets to resend are gathered, from each selective acknowledgement and then on a
    /// third duplicate acknowledgement; a loss halves the congestion window; the acknowledged
    /// packets leave the send window; and a socket that sent its FIN closes once that is
    /// acknowledged. Returns the packets to resend, in order.
    pub fn finish_state(&mut self, packet: &UtpPacket, filtered: u32) -> (r: Vec<UtpPacket>)
        requires
            old(self).wf(),
            old(self).base_delays@.len() > 0,
            plen(*packet) <= usize::MAX,
            plen(*packet) <= u64::MAX,
            forall|k: int| 0 <= k < packet.extensions@.len() ==> (#[trigger] packet.extensions@[k]).data@.len() > 0
                && packet.extensions@[k].data@.len() * 8 <= usize::MAX,
        ensures
            final(self).wf(),
            ({
                let s0 = *old(self);
                let h = packet.header;
                let sw = s0.send_window@;
                let c1 = next_cwnd(s0.cwnd, s0.curr_window, plen(*packet) as u64, filtered, least_pair(s0.base_delays@).1);
                let lost = (sw.len() > 0 && s0.duplicate_ack_count == 3) || h.extension != 0;
                let triple = sw.len() > 0 && s0.duplicate_ack_count == 3;
                let cd = h.timestamp_difference_microseconds / 1000;
                let i = first_with(sw, s0.last_acked);
                &&& views(r@) == views(exts_resends(sw, packet.extensions@, h.ack_nr, s0.seq_nr, packet.extensions@.len() as int)
                    + if triple { take_up_to(sw, wrap_add16(h.ack_nr, 1), 0) } else { Seq::empty() })
                &&& final(self).cwnd == if lost { if c1 / 2 <= 3040 { c1 / 2 } else { 3040 } } else { c1 }
                &&& final(self).rtt == next_rtt(s0.rtt as int, cd as int)
                &&& final(self).rtt_variance == next_rtt_variance(s0.rtt as int, s0.rtt_variance as int, cd as int)
                &&& final(self).congestion_timeout == timeout_for(final(self).rtt as int, final(self).rtt_variance as int)
                &&& i < 0 ==> final(self).send_window@ == sw
                &&& i >= 0 ==> final(self).send_window@ == sw.skip(i + 1)
                &&& final(self).state == if s0.state == UtpSocketState::FinSent && h.ack_nr == s0.seq_nr {
                    UtpSocketState::Closed
                } else {
                    s0.state
                }
                &&& *final(self) == (SackSocketCore {
                    cwnd: final(self).cwnd,
                    rtt: final(self).rtt,
                    rtt_variance: final(self).rtt_variance,
                    congestion_timeout: final(self).congestion_timeout,
                    send_window: final(self).send_window,
                    curr_window: final(self).curr_window,
                    state: final(self).state,
                    ..s0
                })
            }),
    {
        let ghost s0 = *self;
        let ghost sw = self.send_window@;
        let bytes_newly_acked = packet.len() as u64;
        self.adjust_congestion_window(bytes_newly_acked, filtered);
        let ghost c1 = self.cwnd;
        self.update_congestion_timeout((packet.header.timestamp_difference_microseconds / 1000) as i64);

        // Process extensions, if any
        let ack = packet.ack_nr();
        let mut out: Vec<UtpPacket> = Vec::new();
        let ghost mut mid: Seq<UtpPacket> = Seq::empty();
        let m = packet.extensions.len();
        let mut k: usize = 0;
        while k < m
            invariant
                m == packet.extensions@.len(),
                k <= m,
                sw == self.send_window@,
                self.seq_nr == s0.seq_nr,
                forall|q: int| 0 <= q < packet.extensions@.len() ==> (#[trigger] packet.extensions@[q]).data@.len() > 0
                    && packet.extensions@[q].data@.len() * 8 <= usize::MAX,
                views(out@) == views(mid),
                mid == exts_resends(sw, packet.extensions@, ack, s0.seq_nr, k as int),
            decreases m - k,
        {
            let ghost before = out@;
            self.push_ext_resends(&packet.extensions[k], ack, &mut out);
            proof {
                let e = ext_resends(sw, packet.extensions@[k as int].data@, ack, s0.seq_nr);
                lemma_views_append(before, mid, e);
                mid = mid + e;
            }
            k = k + 1;
        }

        // Packet lost, halve the congestion window
        if (self.send_window.len() > 0 && self.duplicate_ack_count == 3) || packet.header.extension != 0 {
            let half = self.cwnd / 2;
            self.cwnd = if half <= 3040 { half } else { 3040 };
        }

        // Three duplicate ACKs, resend packets up to `ack_nr + 1`
        if self.send_window.len() > 0 && self.duplicate_ack_count == 3 {
            let ghost before = out@;
            self.push_up_to(ack.wrapping_add(1), &mut out);
            proof {
                lemma_views_append(before, mid, take_up_to(sw, wrap_add16(ack, 1), 0));
            }
        } else {
            assert(mid + Seq::<UtpPacket>::empty() =~= mid);
        }

        // Success, advance send window
        self.advance_send_window();

        if self.state == UtpSocketState::FinSent && packet.ack_nr() == self.seq_nr {
            self.state = UtpSocketState::Closed;
        }
        out
    }

    /// Whether delivery can take pending bytes: they come from a packet that is still in the
    /// incoming buffer.
    pub open spec fn flush_ready(&self) -> bool {
        self.pending_data@.len() > 0 ==> self.incoming_buffer@.len() > 0
    }

    /// Tells whether delivery can take pending bytes.
    pub fn is_flush_ready(&self) -> (b: bool)
        ensures
            b == self.flush_ready(),
    {
        self.pending_data.len() == 0 || self.incoming_buffer.len() > 0
    }

    /// Delivers the packets at the front of the incoming buffer that come in order, writing
    /// their payloads into `buf` from position `start`, and returns the position after the
    /// last byte written. Pending bytes of a packet that did not fit earlier go first, written
    /// from the start of `buf`: where they all fit, their packet leaves the buffer and nothing
    /// else is delivered.
    pub fn flush_incoming_buffer(&mut self, buf: &mut [u8], start: usize) -> (idx: usize)
        requires
            old(self).flush_ready(),
            start <= old(buf)@.len(),
            start + old(buf)@.len() <= usize::MAX,
        ensures
            final(buf)@.len() == old(buf)@.len(),
            ({
                let s0 = *old(self);
                let b0 = old(buf)@;
                let pend = s0.pending_data@;
                let len0: int = if b0.len() <= pend.len() { b0.len() as int } else { pend.len() as int };
                let d = drain(s0.incoming_buffer@, s0.ack_nr, b0.len() - start);
                if pend.len() > 0 && len0 == pend.len() {
                    &&& idx == start + len0
                    &&& final(self).pending_data@.len() == 0
                    &&& final(self).incoming_buffer@ == s0.incoming_buffer@.drop_first()
                    &&& final(self).ack_nr == sq(s0.incoming_buffer@[0])
                    &&& forall|i: int| 0 <= i < b0.len() ==> final(buf)@[i] == if i < len0 { pend[i] } else { b0[i] }
                } else {
                    &&& idx == start + d.1.len()
                    &&& final(self).incoming_buffer@ == s0.incoming_buffer@.skip(d.0 as int)
                    &&& final(self).ack_nr == d.3
                    &&& final(self).pending_data@ == (if pend.len() > 0 { pend.skip(len0) } else { pend }) + d.2
                    &&& forall|i: int| 0 <= i < b0.len() ==> final(buf)@[i] == if start <= i < start + d.1.len() {
                        d.1[i - start]
                    } else if pend.len() > 0 && i < len0 {
                        pend[i]
                    } else {
                        b0[i]
                    }
                }
            }),
            *final(self) == (SackSocketCore {
                incoming_buffer: final(self).incoming_buffer,
                ack_nr: final(self).ack_nr,
                pending_data: final(self).pending_data,
                ..*old(self)
            }),
            old(self).wf() ==> final(self).wf(),
    {
        let ghost s0 = *self;
        let ghost b0 = buf@;
        let cap = buf.len();
        let ghost len0: int = if cap <= s0.pending_data@.len() { cap as int } else { s0.pending_data@.len() as int };
        let mut idx = start;
        if self.pending_data.len() > 0 {
            let plen0 = self.pending_data.len();
            let len = if cap <= plen0 { cap } else { plen0 };
            let mut i: usize = 0;
            while i < len
                invariant
                    len <= cap,
                    len <= self.pending_data@.len(),
                    cap == buf@.len(),
                    self.pending_data@ == s0.pending_data@,
                    i <= len,
                    forall|j: int| 0 <= j < cap ==> buf@[j] == if j < i { s0.pending_data@[j] } else { b0[j] },
                decreases len - i,
            {
                buf[i] = self.pending_data[i];
                i = i + 1;
            }
            if len == plen0 {
                self.pending_data.clear();
                let packet = self.incoming_buffer.remove(0);
                self.ack_nr = packet.header.seq_nr;
                proof {
                    assert(self.incoming_buffer@ =~= s0.incoming_buffer@.drop_first());
                    if s0.wf() {
                        assert forall|a: int, c: int| 0 <= a < c < self.incoming_buffer@.len() implies sq(
                            #[trigger] self.incoming_buffer@[a],
                        ) < sq(#[trigger] self.incoming_buffer@[c]) by {
                            assert(self.incoming_buffer@[a] == s0.incoming_buffer@[a + 1]);
                            assert(self.incoming_buffer@[c] == s0.incoming_buffer@[c + 1]);
                        }
                    }
                }
                return start + len;
            } else {
                self.pending_data = slice_to_vec(&self.pending_data.as_slice()[len..plen0]);
            }
        }
        let ghost pend1 = self.pending_data@;
        let ghost b1 = buf@;
        proof {
            if s0.pending_data@.len() > 0 {
                assert(pend1 =~= s0.pending_data@.skip(len0));
            }
        }
        let ghost d = drain(s0.incoming_buffer@, s0.ack_nr, cap - start);
        let ghost mut k: nat = 0;
        let ghost mut written: Seq<u8> = Seq::empty();
        while self.incoming_buffer.len() > 0 && (self.ack_nr == self.incoming_buffer[0].header.seq_nr
            || self.ack_nr.wrapping_add(1) == self.incoming_buffer[0].header.seq_nr)
            invariant
                s0 == *old(self),
                cap == buf@.len(),
                cap == b0.len(),
                b0 == old(buf)@,
                len0 == (if cap <= s0.pending_data@.len() { cap as int } else { s0.pending_data@.len() as int }),
                pend1 == (if s0.pending_data@.len() > 0 { s0.pending_data@.skip(len0) } else { s0.pending_data@ }),
                !(s0.pending_data@.len() > 0 && len0 == s0.pending_data@.len()),
                forall|j: int| 0 <= j < cap ==> b1[j] == if s0.pending_data@.len() > 0 && j < len0 {
                    s0.pending_data@[j]
                } else {
                    b0[j]
                },
                d == drain(s0.incoming_buffer@, s0.ack_nr, cap - start),
                start <= idx <= cap,
                idx == start + written.len(),
                self.incoming_buffer@ == s0.incoming_buffer@.skip(k as int),
                k <= s0.incoming_buffer@.len(),
                self.pending_data@ == pend1,
                ({
                    let dn = drain(self.incoming_buffer@, self.ack_nr, cap - idx);
                    &&& d.0 == k + dn.0
                    &&& d.1 == written + dn.1
                    &&& d.2 == dn.2
                    &&& d.3 == dn.3
                }),
                idx < cap || written.len() == 0,
                forall|j: int| 0 <= j < cap ==> buf@[j] == if start <= j < idx { written[j - start] } else { b1[j] },
                s0.wf() ==> sorted_seq(self.incoming_buffer@),
                *self == (SackSocketCore {
                    incoming_buffer: self.incoming_buffer,
                    ack_nr: self.ack_nr,
                    pending_data: self.pending_data,
                    ..s0
                }),
            decreases self.incoming_buffer@.len(),
        {
            let ghost cur = self.incoming_buffer@;
            let ghost dn = drain(cur, self.ack_nr, cap - idx);
            let plen1 = self.incoming_buffer[0].payload.len();
            let len = if cap - idx <= plen1 { cap - idx } else { plen1 };
            let mut i: usize = 0;
            let ghost base_idx = idx;
            let ghost base_buf = buf@;
            while i < len
                invariant
                    cap == buf@.len(),
                    base_idx + len <= cap,
                    len <= self.incoming_buffer@[0].payload@.len(),
                    self.incoming_buffer@ == cur,
                    cur.len() > 0,
                    i <= len,
                    idx == base_idx + i,
                    forall|j: int| 0 <= j < cap ==> buf@[j] == if base_idx <= j < idx {
                        cur[0].payload@[j - base_idx]
                    } else {
                        base_buf[j]
                    },
                decreases len - i,
            {
                buf[idx] = self.incoming_buffer[0].payload[i];
                idx = idx + 1;
                i = i + 1;
            }
            proof {
                let p = cur[0].payload@;
                assert(p.take(len as int) =~= p.subrange(0, len as int));
            }
            if plen1 == len {
                let packet = self.incoming_buffer.remove(0);
                self.ack_nr = packet.header.seq_nr;
                proof {
                    let p = cur[0].payload@;
                    assert(self.incoming_buffer@ =~= s0.incoming_buffer@.skip(k as int + 1));
                    assert(cur.drop_first() =~= self.incoming_buffer@);
                    let dn2 = drain(self.incoming_buffer@, self.ack_nr, cap - idx);
                    if cap - idx > 0 {
                        assert(dn.1 =~= p + dn2.1);
                        assert(d.1 =~= (written + p) + dn2.1);
                    } else {
                        assert(dn.1 =~= p);
                        assert(dn2.1 =~= Seq::<u8>::empty());
                        assert(d.1 =~= (written + p) + dn2.1);
                    }
                    written = written + p;
                    k = k + 1;
                    if s0.wf() {
                        assert forall|a: int, c: int| 0 <= a < c < self.incoming_buffer@.len() implies sq(
                            #[trigger] self.incoming_buffer@[a],
                        ) < sq(#[trigger] self.incoming_buffer@[c]) by {
                            assert(self.incoming_buffer@[a] == cur[a + 1]);
                            assert(self.incoming_buffer@[c] == cur[c + 1]);
                        }
                    }
                    assert forall|j: int| 0 <= j < cap implies buf@[j] == if start <= j < idx { written[j - start] } else { b1[j] } by {
                        if start <= j < base_idx {
                            assert(written[j - start] == (written.subrange(0, written.len() - p.len()))[j - start]);
                        }
                    }
                }
            } else {
                let mut rest = slice_to_vec(&self.incoming_buffer[0].payload.as_slice()[len..plen1]);
                let ghost tail = rest@;
                self.pending_data.append(&mut rest);
                proof {
                    let p = cur[0].payload@;
                    assert(tail =~= p.skip(len as int));
                    assert(dn.2 == p.skip(len as int));
                    assert(self.pending_data@ =~= pend1 + d.2);
                    assert(dn.1 =~= p.take(len as int));
                    assert(d.1 =~= written + p.take(len as int));
                    written = written + p.take(len as int);
                }
            }
            if cap == idx {
                proof {
                    assert(self.pending_data@ =~= (if s0.pending_data@.len() > 0 { s0.pending_data@.skip(
                        if cap <= s0.pending_data@.len() { cap as int } else { s0.pending_data@.len() as int },
                    ) } else { s0.pending_data@ }) + d.2);
                }
                return idx;
            }
        }
        proof {
            assert(drain(self.incoming_buffer@, self.ack_nr, cap - idx).1 =~= Seq::<u8>::empty());
            assert(written + Seq::<u8>::empty() =~= written);
            assert(pend1 + Seq::<u8>::empty() =~= pend1);
        }
        idx
    }

    /// Handles the expiry of the read timeout: the congestion timeout doubles, wrapping around,
    /// and the congestion window shrinks to one segment; a fast resend request follows.
    pub fn handle_receive_timeout(&mut self)
        requires
            old(self).wf(),
        ensures
            final(self).wf(),
            *final(self) == (SackSocketCore {
                congestion_timeout: ((old(self).congestion_timeout * 2) % 0x1_0000_0000) as u32,
                cwnd: SACK_MSS,
                ..*old(self)
            }),
    {
        self.congestion_timeout = self.congestion_timeout.wrapping_mul(2);
        self.cwnd = SACK_MSS;
    }

    /// Notes where a SYN came from: the socket is connected to that address from then on.
    pub fn take_source(&mut self, packet: &UtpPacket, src: A)
        ensures
            type_known(packet.header) && type_of(packet.header) == PacketType::Syn ==> *final(self) == (SackSocketCore {
                connected_to: src,
                ..*old(self)
            }),
            !(type_known(packet.header) && type_of(packet.header) == PacketType::Syn) ==> *final(self) == *old(self),
    {
        if packet.header.type_ver / 16 == 4 {
            self.connected_to = src;
        } else {
            proof {
                if type_known(packet.header) && type_of(packet.header) == PacketType::Syn {
                    assert(crate::packet::type_number(type_of(packet.header)) == packet.header.type_ver / 16);
                }
            }
        }
    }

    /// Keeps a received packet for delivery: a data packet not behind the next expected one is
    /// inserted into the incoming buffer.
    pub fn accept_packet(&mut self, packet: UtpPacket)
        requires
            old(self).wf(),
        ensures
            final(self).wf(),
            type_known(packet.header) && type_of(packet.header) == PacketType::Data
                && wrap_add16(old(self).ack_nr, 1) <= packet.header.seq_nr
                ==> final(self).incoming_buffer@ == sack_buffer_insert(old(self).incoming_buffer@, packet),
            !(type_known(packet.header) && type_of(packet.header) == PacketType::Data
                && wrap_add16(old(self).ack_nr, 1) <= packet.header.seq_nr)
                ==> final(self).incoming_buffer@ == old(self).incoming_buffer@,
            *final(self) == (SackSocketCore { incoming_buffer: final(self).incoming_buffer, ..*old(self) }),
    {
        if packet.header.type_ver / 16 == 0 && self.ack_nr.wrapping_add(1) <= packet.header.seq_nr {
            proof {
                assert(crate::packet::type_of_number(0) == PacketType::Data);
            }
            self.insert_into_buffer(packet);
        } else {
            proof {
                if type_known(packet.header) && type_of(packet.header) == PacketType::Data {
                    assert(crate::packet::type_number(type_of(packet.header)) == packet.header.type_ver / 16);
                }
            }
        }
    }
}

/// One step of building a selective acknowledgement: the byte of the position `diff` is added
/// at the end where it lies past the bytes so far, and the bit of the position is set in the
/// last byte.
pub open spec fn sack_step(prev: Seq<u8>, diff: u16) -> Seq<u8> {
    let grown = if diff / 8 >= prev.len() {
        prev.push(0u8)
    } else {
        prev
    };
    grown.update(grown.len() - 1, grown.last() | (1u8 << ((diff % 8) as u8)))
}

/// The selective acknowledgement built of the first `n` packets of the incoming buffer `s`,
/// before padding: each packet past `ack` is a step at position `seq - ack - 2`, wrapping
/// around.
pub open spec fn sack_bits_of(s: Seq<UtpPacket>, ack: u16, n: int) -> Seq<u8>
    decreases n,
{
    if n <= 0 || n > s.len() {
        Seq::empty()
    } else {
        let prev = sack_bits_of(s, ack, n - 1);
        if sq(s[n - 1]) > ack {
            sack_step(prev, wrap_sub16(wrap_sub16(sq(s[n - 1]), ack), 2))
        } else {
            prev
        }
    }
}

/// Bytes padded with zeros up to a multiple of 4.
pub open spec fn pad4(b: Seq<u8>) -> Seq<u8> {
    if b.len() % 4 != 0 {
        b + Seq::new(((b.len() / 4 + 1) * 4 - b.len()) as nat, |i: int| 0u8)
    } else {
        b
    }
}

/// The selective acknowledgement of the whole incoming buffer `s` past `ack`.
pub open spec fn sack_of(s: Seq<UtpPacket>, ack: u16) -> Seq<u8> {
    pad4(sack_bits_of(s, ack, s.len() as int))
}

/// What a sequence of packets holds, apart from where their bytes live.
pub open spec fn views(s: Seq<UtpPacket>) -> Seq<(UtpPacketHeader, Seq<Seq<u8>>, Seq<u8>)> {
    s.map_values(|p: UtpPacket| pview(p))
}

/// The position of the first packet of `s` whose sequence number is `x`, or -1 when none is.
pub open spec fn first_with(s: Seq<UtpPacket>, x: u16) -> int
    decreases s.len(),
{
    if s.len() == 0 {
        -1
    } else if sq(s[0]) == x {
        0
    } else {
        let r = first_with(s.drop_first(), x);
        if r < 0 {
            -1
        } else {
            r + 1
        }
    }
}

/// The first packet of `s` whose sequence number is `x`, if any.
pub open spec fn find_seq(s: Seq<UtpPacket>, x: u16) -> Seq<UtpPacket> {
    let i = first_with(s, x);
    if 0 <= i < s.len() {
        seq![s[i]]
    } else {
        Seq::empty()
    }
}

/// The first packets of `s` with each of the sequence numbers `vs`, in order.
pub open spec fn finds(s: Seq<UtpPacket>, vs: Seq<u16>) -> Seq<UtpPacket>
    decreases vs.len(),
{
    if vs.len() == 0 {
        Seq::empty()
    } else {
        finds(s, vs.drop_last()) + find_seq(s, vs.last())
    }
}

/// The bits that the iterator yields of `data`: every bit, least significant bit first.
pub open spec fn yielded_bits(data: Seq<u8>) -> Seq<u8> {
    Seq::new(data.len() * 8, |i: int| bit_value(data, i))
}

/// The number of set bits among the first `n` of `bits`.
pub open spec fn count_set(bits: Seq<u8>, n: int) -> nat
    decreases n,
{
    if n <= 0 || n > bits.len() {
        0
    } else {
        count_set(bits, n - 1) + if bits[n - 1] == 1 {
            1nat
        } else {
            0nat
        }
    }
}

/// The sequence numbers that a selective acknowledgement names lost, scanning its bits from
/// position `i`: an unset bit at `i` stands for `ack + 2 + i`, wrapping around, as long as that
/// is below `seq_nr`; the scan stops at the first one that is not.
pub open spec fn lost_scan(bits: Seq<u8>, ack: u16, seq_nr: u16, i: int) -> Seq<u16>
    decreases bits.len() - i,
{
    if i < 0 || i >= bits.len() {
        Seq::empty()
    } else if bits[i] == 1 {
        lost_scan(bits, ack, seq_nr, i + 1)
    } else {
        let v = wrap_add16(ack, 2 + (i % 65536));
        if v < seq_nr {
            seq![v] + lost_scan(bits, ack, seq_nr, i + 1)
        } else {
            Seq::empty()
        }
    }
}

/// The packets of the send window `sw` to resend on a selective acknowledgement with `data`
/// in an acknowledgement of `ack`: the one after `ack` where three or more bits are set, then
/// each packet named lost.
pub open spec fn ext_resends(sw: Seq<UtpPacket>, data: Seq<u8>, ack: u16, seq_nr: u16) -> Seq<UtpPacket> {
    let bits = yielded_bits(data);
    let first = if count_set(bits, bits.len() as int) >= 3 {
        find_seq(sw, wrap_add16(ack, 1))
    } else {
        Seq::empty()
    };
    first + finds(sw, lost_scan(bits, ack, seq_nr, 0))
}

/// The resends of the first `n` extensions of an acknowledgement, in order.
pub open spec fn exts_resends(sw: Seq<UtpPacket>, exts: Seq<UtpExtension>, ack: u16, seq_nr: u16, n: int) -> Seq<UtpPacket>
    decreases n,
{
    if n <= 0 || n > exts.len() {
        Seq::empty()
    } else {
        exts_resends(sw, exts, ack, seq_nr, n - 1) + ext_resends(sw, exts[n - 1].data@, ack, seq_nr)
    }
}

/// The packets of the send window from `i` on, as long as their sequence number is at most
/// `x`.
pub open spec fn take_up_to(sw: Seq<UtpPacket>, x: u16, i: int) -> Seq<UtpPacket>
    decreases sw.len() - i,
{
    if 0 <= i < sw.len() && sq(sw[i]) <= x {
        seq![sw[i]] + take_up_to(sw, x, i + 1)
    } else {
        Seq::empty()
    }
}

/// Whether `a` comes before `b` in the order of pairs: by the first, then by the second.
pub open spec fn pair_lt(a: (u32, u32), b: (u32, u32)) -> bool {
    a.0 < b.0 || (a.0 == b.0 && a.1 < b.1)
}

/// The least pair of a non-empty sequence in the order of pairs.
pub open spec fn least_pair(s: Seq<(u32, u32)>) -> (u32, u32)
    decreases s.len(),
{
    if s.len() <= 1 {
        s[0]
    } else {
        let m = least_pair(s.drop_last());
        if pair_lt(s.last(), m) {
            s.last()
        } else {
            m
        }
    }
}

/// The congestion window after an acknowledgement of `bytes` bytes, with the filtered current
/// delay `filtered`, the base delay `base`, the bytes in flight `flight` and the window `cwnd`:
/// it grows by the fraction of the target delay that the queuing delay leaves, per segment,
/// capped one segment above the bytes in flight and kept at least two segments.
pub open spec fn next_cwnd(cwnd: u64, flight: u64, bytes: u64, filtered: u32, base: u32) -> u64 {
    let queuing_delay = wrap_sub32(filtered, base);
    let off_target = wrap_sub32(SACK_TARGET, queuing_delay) / SACK_TARGET;
    let grown = wrap_add64(cwnd, wrap_mul64(wrap_mul64(off_target as u64, bytes), SACK_MSS) / cwnd);
    let max_allowed = wrap_add64(flight, 1400);
    let capped = if grown <= max_allowed { grown } else { max_allowed };
    if capped >= 2800 { capped } else { 2800 }
}

/// What delivering the packets at the front of the incoming buffer `s` that come in order after
/// `ack` into `room` bytes gives: the number of packets delivered whole, the bytes written,
/// the bytes of a packet that did not fit, and the acknowledgement number after it. A packet
/// that does not fit whole stays in the buffer; delivery stops when the room is used up.
pub open spec fn drain(s: Seq<UtpPacket>, ack: u16, room: int) -> (nat, Seq<u8>, Seq<u8>, u16)
    decreases s.len(),
{
    if s.len() == 0 || !(ack == sq(s[0]) || wrap_add16(ack, 1) == sq(s[0])) {
        (0, Seq::empty(), Seq::empty(), ack)
    } else {
        let p = s[0].payload@;
        let len = if room <= p.len() { room } else { p.len() as int };
        if len == p.len() {
            if room - len <= 0 {
                (1, p, Seq::empty(), sq(s[0]))
            } else {
                let d = drain(s.drop_first(), sq(s[0]), room - len);
                ((d.0 + 1) as nat, p + d.1, d.2, d.3)
            }
        } else {
            (0, p.take(len), p.skip(len), ack)
        }
    }
}

/// The number of data packets that `n` bytes take.
pub open spec fn sack_chunk_count(n: nat) -> nat {
    if n == 0 {
        0
    } else {
        ((n - 1) / (SACK_BUF_SIZE as int) + 1) as nat
    }
}

/// The end of the `i`-th chunk of `n` bytes.
pub open spec fn sack_chunk_end(n: nat, i: int) -> int {
    if (i + 1) * SACK_BUF_SIZE <= n {
        (i + 1) * SACK_BUF_SIZE
    } else {
        n as int
    }
}

/// The position of the first packet of `s` whose sequence number is not below `x`.
pub open spec fn first_not_below(s: Seq<UtpPacket>, x: u16) -> int
    decreases s.len(),
{
    if s.len() == 0 || sq(s[0]) >= x {
        0
    } else {
        1 + first_not_below(s.drop_first(), x)
    }
}

/// The incoming buffer after receiving `p`: `p` stands at its place in sequence-number order,
/// replacing a packet of the same sequence number.
pub open spec fn sack_buffer_insert(s: Seq<UtpPacket>, p: UtpPacket) -> Seq<UtpPacket> {
    let i = first_not_below(s, sq(p));
    if i < s.len() && sq(s[i]) == sq(p) {
        s.update(i, p)
    } else {
        s.insert(i, p)
    }
}

/// In a sorted buffer, the first packet not below `x` comes after every packet below it.
proof fn lemma_first_not_below(s: Seq<UtpPacket>, x: u16, i: int)
    requires
        sorted_seq(s),
        0 <= i <= s.len(),
        forall|j: int| 0 <= j < i ==> sq(#[trigger] s[j]) < x,
        i < s.len() ==> sq(s[i]) >= x,
    ensures
        first_not_below(s, x) == i,
        forall|j: int| i <= j < s.len() ==> sq(#[trigger] s[j]) >= x,
    decreases s.len(),
{
    if s.len() > 0 && i > 0 {
        let t = s.drop_first();
        assert(sorted_seq(t)) by {
            assert forall|a: int, b: int| 0 <= a < b < t.len() implies sq(#[trigger] t[a]) < sq(#[trigger] t[b]) by {
                assert(t[a] == s[a + 1] && t[b] == s[b + 1]);
            }
        }
        assert forall|j: int| 0 <= j < i - 1 implies sq(#[trigger] t[j]) < x by {
            assert(t[j] == s[j + 1]);
        }
        if i - 1 < t.len() {
            assert(t[i - 1] == s[i]);
        }
        lemma_first_not_below(t, x, i - 1);
        assert forall|j: int| i <= j < s.len() implies sq(#[trigger] s[j]) >= x by {
            assert(s[j] == t[j - 1]);
        }
    } else if s.len() > 0 {
        assert forall|j: int| 0 <= j < s.len() implies sq(#[trigger] s[j]) >= x by {
            if j > 0 {
                assert(sq(s[0]) < sq(s[j]));
            }
        }
    }
}

/// The wire length of a window grows by that of a packet pushed at its end.
proof fn lemma_window_len_push(s: Seq<UtpPacket>, p: UtpPacket, i: int)
    requires
        0 <= i <= s.len(),
    ensures
        window_len(s.push(p), i) == window_len(s, i) + plen(p),
    decreases s.len() - i,
{
    if i < s.len() {
        lemma_window_len_push(s, p, i + 1);
        assert(s.push(p)[i] == s[i]);
    } else {
        assert(s.push(p)[i] == p);
        assert(window_len(s.push(p), i + 1) == 0);
    }
}

/// `first_with` characterised: -1 exactly when no packet has sequence number `x`, else the
/// position of the first that has.
proof fn lemma_first_with(s: Seq<UtpPacket>, x: u16)
    ensures
        -1 <= first_with(s, x) < s.len(),
        first_with(s, x) < 0 <==> forall|j: int| 0 <= j < s.len() ==> sq(#[trigger] s[j]) != x,
        first_with(s, x) >= 0 ==> sq(s[first_with(s, x)]) == x,
        forall|j: int| 0 <= j < first_with(s, x) ==> sq(#[trigger] s[j]) != x,
    decreases s.len(),
{
    if s.len() > 0 && sq(s[0]) != x {
        let t = s.drop_first();
        lemma_first_with(t, x);
        if first_with(t, x) < 0 {
            assert forall|j: int| 0 <= j < s.len() implies sq(#[trigger] s[j]) != x by {
                if j > 0 {
                    assert(s[j] == t[j - 1]);
                }
            }
        } else {
            assert forall|j: int| 0 <= j < first_with(s, x) implies sq(#[trigger] s[j]) != x by {
                if j > 0 {
                    assert(s[j] == t[j - 1]);
                }
            }
            assert(s[first_with(s, x)] == t[first_with(t, x)]);
        }
    }
}

/// Views distribute over concatenation, and equal views stay equal when the same packets are
/// appended.
proof fn lemma_views_append(a: Seq<UtpPacket>, b: Seq<UtpPacket>, c: Seq<UtpPacket>)
    requires
        views(a) == views(b),
    ensures
        views(a + c) == views(b + c),
{
    assert(a.len() == b.len()) by {
        assert(views(a).len() == a.len());
        assert(views(b).len() == b.len());
    }
    assert forall|i: int| 0 <= i < (a + c).len() implies views(a + c)[i] == views(b + c)[i] by {
        if i < a.len() {
            assert(views(a)[i] == views(b)[i]);
        }
    }
    assert(views(a + c) =~= views(b + c));
}

/// The window bytes of a suffix are those of the window from the suffix's start.
proof fn lemma_window_len_skip(s: Seq<UtpPacket>, k: int, i: int)
    requires
        0 <= k <= s.len(),
        0 <= i,
    ensures
        window_len(s.skip(k), i) == window_len(s, k + i),
    decreases s.len() - k - i,
{
    if k + i < s.len() {
        lemma_window_len_skip(s, k, i + 1);
        assert(s.skip(k)[i] == s[k + i]);
    }
}

/// Equal views stay equal when packets with equal views are pushed.
proof fn lemma_views_push(a: Seq<UtpPacket>, b: Seq<UtpPacket>, p: UtpPacket, q: UtpPacket)
    requires
        views(a) == views(b),
        pview(p) == pview(q),
    ensures
        views(a.push(p)) == views(b.push(q)),
{
    assert(a.len() == b.len()) by {
        assert(views(a).len() == a.len());
        assert(views(b).len() == b.len());
    }
    assert forall|k: int| 0 <= k < a.len() + 1 implies views(a.push(p))[k] == views(b.push(q))[k] by {
        if k < a.len() {
            assert(views(a)[k] == views(b)[k]);
        }
    }
    assert(views(a.push(p)) =~= views(b.push(q)));
}

} // verus!

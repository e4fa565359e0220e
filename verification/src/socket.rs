//! The decisions of a uTP connection: what a socket does with each packet it receives, each
//! timeout and each buffer of data to send, apart from the network and the clock.
use crate::bit_iterator::bit_at;
use crate::error::SocketError;
use crate::packet::{
    default_header, packet_len, ExtensionModel, ExtensionType, HeaderModel, Packet, PacketModel,
    PacketType,
};
use crate::util::{abs_diff, abs_difference, generate_sequential_identifiers, random_u16};
use std::collections::VecDeque;
use vstd::prelude::*;
use vstd::slice::slice_to_vec;

verus! {

/// For simplicity's sake, let us assume no packet will ever exceed the
/// Ethernet maximum transfer unit of 1500 bytes.
pub const BUF_SIZE: usize = 1500;

pub const ALLOWED_INCREASE: u32 = 1;

/// Maximum segment size.
pub const MSS: u32 = 1400;

pub const MIN_CWND: u32 = 2;

pub const INIT_CWND: u32 = 2;

/// The congestion timeout of a new socket, 500 ms; it doubles with each timeout.
pub const INITIAL_CONGESTION_TIMEOUT: u64 = 500;

/// 500 ms.
pub const MIN_CONGESTION_TIMEOUT: u64 = 500;

/// One minute.
pub const MAX_CONGESTION_TIMEOUT: u64 = 60_000;

/// Base delays history size.
pub const BASE_HISTORY: usize = 10;

/// Maximum connection retries.
pub const MAX_SYN_RETRIES: u32 = 5;

/// Maximum retransmission retries.
pub const MAX_RETRANSMISSION_RETRIES: u32 = 5;

/// Local receive window size.
pub const WINDOW_SIZE: u32 = 1024 * 1024;

/// Maximum time (in microseconds) to wait for incoming packets when the send window is full.
pub const PRE_SEND_TIMEOUT: u32 = 500_000;

/// Maximum age of base delay sample (60 seconds), in microseconds.
pub const MAX_BASE_DELAY_AGE: i64 = 60_000_000;

/// Payload bytes of a data packet.
pub const CHUNK_SIZE: usize = 1380;

/// The states of a connection.
#[derive(PartialEq, Eq, Debug, Copy, Clone, Structural)]
pub enum SocketState {
    New,
    Connected,
    SynSent,
    FinSent,
    ResetReceived,
    Closed,
}

/// A sample of the delay between a packet's sending and its acknowledgement, with the time of
/// its reception.
#[derive(Copy, Clone)]
pub struct DelayDifferenceSample {
    pub received_at: u32,
    pub difference: i64,
}

/// The sequence number of a packet.
pub open spec fn seq_of(p: Packet) -> u16 {
    p@.header.seq_nr
}

/// Packets in strictly ascending order of sequence number.
pub open spec fn sorted_by_seq(s: Seq<Packet>) -> bool {
    forall|i: int, j: int| 0 <= i < j < s.len() ==> seq_of(#[trigger] s[i]) < seq_of(#[trigger] s[j])
}

/// The bytes that the packets from `i` on take on the wire.
pub open spec fn window_bytes(s: Seq<Packet>, i: int) -> nat
    decreases s.len() - i,
{
    if 0 <= i < s.len() {
        packet_len(s[i]@) + window_bytes(s, i + 1)
    } else {
        0
    }
}

/// The smaller of two lengths.
pub open spec fn min_len(a: nat, b: nat) -> nat {
    if a <= b {
        a
    } else {
        b
    }
}

/// Where a selective acknowledgement of `l0` bytes must grow to, to report a position in byte
/// `byte`: the least multiple of 4 above `byte`, unless it already holds that byte.
pub open spec fn sack_target(byte: int, l0: int) -> int {
    if byte >= l0 {
        4 * (byte / 4) + 4
    } else {
        l0
    }
}

/// The number of packets of `s` whose sequence number is below `x`.
pub open spec fn count_below(s: Seq<Packet>, x: u16) -> nat
    decreases s.len(),
{
    if s.len() == 0 {
        0
    } else {
        count_below(s.drop_last(), x) + if seq_of(s.last()) < x {
            1nat
        } else {
            0nat
        }
    }
}

/// The incoming buffer after receiving `p`: `p` stands at its place in sequence-number order,
/// unless a packet of the same sequence number is already there.
pub open spec fn buffer_insert(s: Seq<Packet>, p: Packet) -> Seq<Packet> {
    let i = count_below(s, seq_of(p)) as int;
    if i < s.len() && seq_of(s[i]) == seq_of(p) {
        s
    } else {
        s.insert(i, p)
    }
}

/// The incoming buffer `buf` after a received packet `p` is kept for delivery, the last
/// packet delivered being `last_dropped`: a data packet other than that one is inserted.
pub open spec fn accepted(buf: Seq<Packet>, last_dropped: u16, p: Packet) -> Seq<Packet> {
    if p@.header.ty == PacketType::Data && seq_distance(seq_of(p), last_dropped) > 0 {
        buffer_insert(buf, p)
    } else {
        buf
    }
}

/// The incoming buffer `buf` after the packets `ps` are received in turn and kept for delivery.
pub open spec fn accept_all(buf: Seq<Packet>, last_dropped: u16, ps: Seq<Packet>) -> Seq<Packet>
    decreases ps.len(),
{
    if ps.len() == 0 {
        buf
    } else {
        accepted(accept_all(buf, last_dropped, ps.drop_last()), last_dropped, ps.last())
    }
}

/// Whether the packet at `k` of the incoming buffer lies past the next expected one, which a
/// selective acknowledgement then reports.
pub open spec fn is_stashed(s: Seq<Packet>, ack: u16, k: int) -> bool {
    seq_of(s[k]) > ack + 1
}

/// The position in a selective acknowledgement of the packet at `k` of the incoming buffer.
pub open spec fn stash_index(s: Seq<Packet>, ack: u16, k: int) -> int {
    seq_of(s[k]) - ack - 2
}

/// Whether one of the first `n` packets of the incoming buffer is reported at position `i` of a
/// selective acknowledgement.
pub open spec fn sack_marked(s: Seq<Packet>, ack: u16, n: int, i: int) -> bool {
    exists|k: int| 0 <= k < n && is_stashed(s, ack, k) && stash_index(s, ack, k) == i
}

/// The length in bytes of the selective acknowledgement built from the first `n` packets of the
/// incoming buffer: a multiple of 4, enough to hold every reported position.
pub open spec fn sack_len(s: Seq<Packet>, ack: u16, n: int) -> nat
    decreases n,
{
    if n <= 0 {
        0
    } else {
        let prev = sack_len(s, ack, n - 1);
        if is_stashed(s, ack, n - 1) {
            let byte = stash_index(s, ack, n - 1) / 8;
            if byte >= prev {
                (4 * (byte / 4) + 4) as nat
            } else {
                prev
            }
        } else {
            prev
        }
    }
}

/// What a selective acknowledgement built from the first `n` packets of the incoming buffer
/// holds: its length is `sack_len`, a multiple of 4 that covers every reported position, and its
/// bit `i` is set exactly where position `i` is reported.
pub open spec fn sack_reports(s: Seq<Packet>, ack: u16, n: int, sack: Seq<u8>) -> bool {
    &&& sack.len() == sack_len(s, ack, n)
    &&& sack.len() % 4 == 0
    &&& forall|i: int| #[trigger] sack_marked(s, ack, n, i) ==> 0 <= i < sack.len() * 8
    &&& forall|i: int| 0 <= i < sack.len() * 8 ==> (bit_at(sack, i) <==> sack_marked(s, ack, n, i))
}

/// The distance from sequence number `b` forward to sequence number `a`, modulo 2^16.
pub open spec fn seq_distance(a: u16, b: u16) -> u16 {
    if a >= b {
        (a - b) as u16
    } else {
        (a - b + 65536) as u16
    }
}

/// What a socket does after handling a packet.
pub enum Response {
    /// Nothing is sent back.
    Nothing,
    /// The packet is sent back to the remote peer.
    Send(Packet),
    /// The packet acknowledges sent data: the acknowledgement procedure runs next.
    ProcessState,
}

/// The name of a connection state.
pub open spec fn state_name(s: SocketState) -> Seq<char> {
    match s {
        SocketState::New => "New"@,
        SocketState::Connected => "Connected"@,
        SocketState::SynSent => "SynSent"@,
        SocketState::FinSent => "FinSent"@,
        SocketState::ResetReceived => "ResetReceived"@,
        SocketState::Closed => "Closed"@,
    }
}

/// The name of a packet type.
pub open spec fn packet_type_name(t: PacketType) -> Seq<char> {
    match t {
        PacketType::Data => "Data"@,
        PacketType::Fin => "Fin"@,
        PacketType::State => "State"@,
        PacketType::Reset => "Reset"@,
        PacketType::Syn => "Syn"@,
    }
}

/// The message of the error for a packet that the socket has no handling for in its state.
pub open spec fn unimplemented_text(s: SocketState, t: PacketType) -> Seq<char> {
    "Unimplemented handling for ("@ + state_name(s) + ","@ + packet_type_name(t) + ")"@
}

/// The message of the error for a first packet that is not a SYN.
pub open spec fn not_syn_text(t: PacketType) -> Seq<char> {
    "Expected SYN packet, got "@ + packet_type_name(t) + " instead"@
}

/// Returns the name of a connection state.
pub fn state_str(s: SocketState) -> (r: &'static str)
    ensures
        r@ == state_name(s),
{
    match s {
        SocketState::New => "New",
        SocketState::Connected => "Connected",
        SocketState::SynSent => "SynSent",
        SocketState::FinSent => "FinSent",
        SocketState::ResetReceived => "ResetReceived",
        SocketState::Closed => "Closed",
    }
}

/// Returns the name of a packet type.
pub fn type_str(t: PacketType) -> (r: &'static str)
    ensures
        r@ == packet_type_name(t),
{
    match t {
        PacketType::Data => "Data",
        PacketType::Fin => "Fin",
        PacketType::State => "State",
        PacketType::Reset => "Reset",
        PacketType::Syn => "Syn",
    }
}

/// The error for a packet that the socket has no handling for in its state.
pub fn unimplemented_error(s: SocketState, t: PacketType) -> (e: SocketError)
    ensures
        e matches SocketError::Other(m) && m@ == unimplemented_text(s, t),
{
    let mut m = "Unimplemented handling for (".to_owned();
    m.append(state_str(s));
    m.append(",");
    m.append(type_str(t));
    m.append(")");
    SocketError::Other(m)
}

/// The error that a listener returns for a first packet that is not a SYN.
pub fn not_syn_error(t: PacketType) -> (e: SocketError)
    ensures
        e matches SocketError::Other(m) && m@ == not_syn_text(t),
{
    let mut m = "Expected SYN packet, got ".to_owned();
    m.append(type_str(t));
    m.append(" instead");
    SocketError::Other(m)
}

/// What a socket does when no packet arrives in time.
pub enum TimeoutAction {
    /// Send the FIN packet again.
    ResendFin(Packet),
    /// Send a fast resend request: three State packets acknowledging the last packet received.
    FastResendRequest,
    /// Send the first unacknowledged packet again.
    Resend(Packet),
    /// Send nothing.
    Nothing,
}

/// The data packet that carries bytes `start..end` of `buf`, with the given numbers.
pub open spec fn data_packet_model(buf: Seq<u8>, start: int, end: int, seq_nr: u16, ack_nr: u16, cid: u16) -> PacketModel {
    PacketModel {
        header: HeaderModel {
            seq_nr: seq_nr,
            ack_nr: ack_nr,
            connection_id: cid,
            ..default_header()
        },
        extensions: Seq::empty(),
        payload: buf.subrange(start, end),
    }
}

/// The number of data packets that `n` bytes take.
pub open spec fn chunk_count(n: nat) -> nat {
    if n == 0 {
        0
    } else {
        ((n - 1) / (CHUNK_SIZE as int) + 1) as nat
    }
}

/// The state of one side of a uTP connection, apart from its UDP socket.
pub struct SocketCore<A> {
    /// Remote peer
    pub connected_to: A,
    /// Sender connection identifier
    pub sender_connection_id: u16,
    /// Receiver connection identifier
    pub receiver_connection_id: u16,
    /// Sequence number for the next packet
    pub seq_nr: u16,
    /// Sequence number of the latest acknowledged packet sent by the remote peer
    pub ack_nr: u16,
    /// Socket state
    pub state: SocketState,
    /// Received but not acknowledged packets
    pub incoming_buffer: Vec<Packet>,
    /// Sent but not yet acknowledged packets
    pub send_window: Vec<Packet>,
    /// Packets not yet sent
    pub unsent_queue: VecDeque<Packet>,
    /// How many ACKs did the socket receive for packet with sequence number equal to `ack_nr`
    pub duplicate_ack_count: u32,
    /// Sequence number of the latest packet the remote peer acknowledged
    pub last_acked: u16,
    /// Timestamp of the latest packet the remote peer acknowledged
    pub last_acked_timestamp: u32,
    /// Sequence number of the last packet removed from the incoming buffer
    pub last_dropped: u16,
    /// Round-trip time to remote peer
    pub rtt: i32,
    /// Variance of the round-trip time to the remote peer
    pub rtt_variance: i32,
    /// Data from the latest packet not yet returned in `recv_from`
    pub pending_data: Vec<u8>,
    /// Bytes in flight
    pub curr_window: u32,
    /// Window size of the remote peer
    pub remote_wnd_size: u32,
    /// Rolling window of packet delay to remote peer
    pub base_delays: VecDeque<i64>,
    /// Rolling window of the difference between sending a packet and receiving its acknowledgement
    pub current_delays: Vec<DelayDifferenceSample>,
    /// Difference between timestamp of the latest packet received and time of reception
    pub their_delay: u32,
    /// Start of the current minute for sampling purposes
    pub last_rollover: u32,
    /// Current congestion timeout in milliseconds
    pub congestion_timeout: u64,
    /// Congestion window in bytes
    pub cwnd: u32,
    /// Maximum retransmission retries
    pub max_retransmission_retries: u32,
}

impl<A> SocketCore<A> {
    /// What every operation keeps: the incoming buffer is sorted by sequence number without
    /// duplicates, the bytes in flight are those of the send window, and the base delay history
    /// holds at most `BASE_HISTORY` samples.
    pub open spec fn wf(&self) -> bool {
        &&& sorted_by_seq(self.incoming_buffer@)
        &&& self.curr_window == window_bytes(self.send_window@, 0)
        &&& self.base_delays@.len() <= BASE_HISTORY
        &&& 0 <= self.rtt <= 4_294_967
        &&& 0 <= self.rtt_variance <= 4_294_967
    }

    /// The state of a new socket with the given connection identifiers, bound to talk to
    /// `addr`: nothing sent, received or buffered, no delay measured, and the initial window,
    /// timeout and retry limit.
    pub open spec fn is_new_socket(&self, addr: A, receiver_id: u16, sender_id: u16) -> bool {
        &&& self.connected_to == addr
        &&& self.receiver_connection_id == receiver_id
        &&& self.sender_connection_id == sender_id
        &&& self.seq_nr == 1
        &&& self.ack_nr == 0
        &&& self.state == SocketState::New
        &&& self.incoming_buffer@.len() == 0
        &&& self.send_window@.len() == 0
        &&& self.unsent_queue@.len() == 0
        &&& self.duplicate_ack_count == 0
        &&& self.last_acked == 0
        &&& self.last_acked_timestamp == 0
        &&& self.last_dropped == 0
        &&& self.rtt == 0
        &&& self.rtt_variance == 0
        &&& self.pending_data@.len() == 0
        &&& self.curr_window == 0
        &&& self.remote_wnd_size == 0
        &&& self.base_delays@.len() == 0
        &&& self.current_delays@.len() == 0
        &&& self.their_delay == 0
        &&& self.last_rollover == 0
        &&& self.congestion_timeout == INITIAL_CONGESTION_TIMEOUT
        &&& self.cwnd == INIT_CWND * MSS
        &&& self.max_retransmission_retries == MAX_RETRANSMISSION_RETRIES
    }

    /// Creates the state of a new socket with the given connection identifiers, bound to talk to
    /// `addr`.
    pub fn with_connection_ids(addr: A, receiver_id: u16, sender_id: u16) -> (s: Self)
        ensures
            s.wf(),
            s.is_new_socket(addr, receiver_id, sender_id),
    {
        SocketCore {
            connected_to: addr,
            receiver_connection_id: receiver_id,
            sender_connection_id: sender_id,
            seq_nr: 1,
            ack_nr: 0,
            state: SocketState::New,
            incoming_buffer: Vec::new(),
            send_window: Vec::new(),
            unsent_queue: VecDeque::new(),
            duplicate_ack_count: 0,
            last_acked: 0,
            last_acked_timestamp: 0,
            last_dropped: 0,
            rtt: 0,
            rtt_variance: 0,
            pending_data: Vec::new(),
            curr_window: 0,
            remote_wnd_size: 0,
            current_delays: Vec::new(),
            base_delays: VecDeque::with_capacity(BASE_HISTORY),
            their_delay: 0,
            last_rollover: 0,
            congestion_timeout: INITIAL_CONGESTION_TIMEOUT,
            cwnd: INIT_CWND * MSS,
            max_retransmission_retries: MAX_RETRANSMISSION_RETRIES,
        }
    }

    /// Creates the state of a new socket bound to talk to `addr`, with a random pair of
    /// connection identifiers, the sender's being the receiver's plus one.
    pub fn from_raw_parts(addr: A) -> (s: Self)
        ensures
            s.wf(),
            s.is_new_socket(addr, s.receiver_connection_id, s.sender_connection_id),
            s.sender_connection_id == s.receiver_connection_id + 1,
    {
        let (receiver_id, sender_id) = generate_sequential_identifiers();
        Self::with_connection_ids(addr, receiver_id, sender_id)
    }

    /// The reply to `received` of type `t` that the socket builds at time `now`.
    pub open spec fn reply_model(&self, received: PacketModel, t: PacketType, now: u32) -> PacketModel {
        PacketModel {
            header: HeaderModel {
                ty: t,
                timestamp_microseconds: now,
                timestamp_difference_microseconds: abs_difference(
                    now,
                    received.header.timestamp_microseconds,
                ),
                connection_id: self.sender_connection_id,
                seq_nr: self.seq_nr,
                ack_nr: self.ack_nr,
                ..default_header()
            },
            extensions: Seq::empty(),
            payload: Seq::empty(),
        }
    }

    /// Builds the reply of type `t` to `received` at time `now`.
    pub fn prepare_reply(&self, received: &Packet, t: PacketType, now: u32) -> (resp: Packet)
        ensures
            resp@ == self.reply_model(received@, t, now),
    {
        let mut resp = Packet::new();
        resp.set_type(t);
        let other_t_micro = received.timestamp_microseconds();
        let time_difference = abs_diff(now, other_t_micro);
        resp.set_timestamp_microseconds(now);
        resp.set_timestamp_difference_microseconds(time_difference);
        resp.set_connection_id(self.sender_connection_id);
        resp.set_seq_nr(self.seq_nr);
        resp.set_ack_nr(self.ack_nr);
        resp
    }

    /// The packet that the socket sends, with header fields `t`, connection id `cid`, and the
    /// socket's sequence and acknowledgement numbers, at time `now`.
    pub open spec fn control_model(&self, t: PacketType, cid: u16, now: u32, difference: u32) -> PacketModel {
        PacketModel {
            header: HeaderModel {
                ty: t,
                timestamp_microseconds: now,
                timestamp_difference_microseconds: difference,
                connection_id: cid,
                seq_nr: self.seq_nr,
                ack_nr: self.ack_nr,
                ..default_header()
            },
            extensions: Seq::empty(),
            payload: Seq::empty(),
        }
    }

    /// Builds the FIN packet that closes the connection, at time `now`.
    pub fn fin_packet(&self, now: u32) -> (p: Packet)
        ensures
            p@ == self.control_model(PacketType::Fin, self.sender_connection_id, now, 0),
    {
        let mut packet = Packet::new();
        packet.set_connection_id(self.sender_connection_id);
        packet.set_seq_nr(self.seq_nr);
        packet.set_ack_nr(self.ack_nr);
        packet.set_timestamp_microseconds(now);
        packet.set_type(PacketType::Fin);
        packet
    }

    /// Builds the SYN packet that opens a connection, at time `now`.
    pub fn syn_packet(&self, now: u32) -> (p: Packet)
        ensures
            p@ == (PacketModel {
                header: HeaderModel { ack_nr: 0, ..self.control_model(PacketType::Syn, self.receiver_connection_id, now, 0).header },
                ..self.control_model(PacketType::Syn, self.receiver_connection_id, now, 0)
            }),
    {
        let mut packet = Packet::new();
        packet.set_type(PacketType::Syn);
        packet.set_connection_id(self.receiver_connection_id);
        packet.set_seq_nr(self.seq_nr);
        packet.set_timestamp_microseconds(now);
        packet
    }

    /// Notes that the SYN went out: the socket waits for the reply.
    pub fn syn_sent(&mut self)
        requires
            old(self).wf(),
        ensures
            final(self).wf(),
            *final(self) == (SocketCore { state: SocketState::SynSent, ..*old(self) }),
    {
        self.state = SocketState::SynSent;
    }

    /// Whether a connecting socket sends another SYN after `attempts` went unanswered: it tries
    /// `MAX_SYN_RETRIES` times in all.
    pub fn syn_retry_due(attempts: u32) -> (b: bool)
        ensures
            b == (attempts < MAX_SYN_RETRIES),
    {
        attempts < MAX_SYN_RETRIES
    }

    /// The time to wait for the reply to the next SYN after a wait of `syn_timeout`
    /// milliseconds went unanswered: twice as long.
    pub fn next_syn_timeout(syn_timeout: u64) -> (t: u64)
        requires
            syn_timeout <= u64::MAX / 2,
        ensures
            t == 2 * syn_timeout,
    {
        syn_timeout * 2
    }

    /// Builds one of the three State packets of a fast resend request, at time `now`: it
    /// acknowledges the last packet received.
    pub fn fast_resend_request_packet(&self, now: u32) -> (p: Packet)
        ensures
            p@ == self.control_model(PacketType::State, self.sender_connection_id, now, self.their_delay),
    {
        let mut packet = Packet::new();
        packet.set_type(PacketType::State);
        packet.set_timestamp_microseconds(now);
        packet.set_timestamp_difference_microseconds(self.their_delay);
        packet.set_connection_id(self.sender_connection_id);
        packet.set_seq_nr(self.seq_nr);
        packet.set_ack_nr(self.ack_nr);
        packet
    }

    /// Whether removing the first packet of the incoming buffer `new` gives `new` from `old`,
    /// with the acknowledgement number moved to that packet; nothing happens where the buffer is
    /// empty.
    pub open spec fn advanced_from(&self, old: Self) -> bool {
        if old.incoming_buffer@.len() == 0 {
            &&& self.incoming_buffer@ == old.incoming_buffer@
            &&& self.ack_nr == old.ack_nr
            &&& self.last_dropped == old.last_dropped
        } else {
            &&& self.incoming_buffer@ == old.incoming_buffer@.drop_first()
            &&& self.ack_nr == seq_of(old.incoming_buffer@[0])
            &&& self.last_dropped == self.ack_nr
        }
    }

    /// Removes a packet in the incoming buffer and updates the current acknowledgement number.
    pub fn advance_incoming_buffer(&mut self) -> (r: Option<Packet>)
        requires
            old(self).wf(),
        ensures
            final(self).wf(),
            final(self).advanced_from(*old(self)),
            old(self).incoming_buffer@.len() == 0 ==> r is None,
            old(self).incoming_buffer@.len() > 0 ==> r == Some(old(self).incoming_buffer@[0]),
            *final(self) == (SocketCore {
                incoming_buffer: final(self).incoming_buffer,
                ack_nr: final(self).ack_nr,
                last_dropped: final(self).last_dropped,
                ..*old(self)
            }),
    {
        if self.incoming_buffer.len() != 0 {
            let packet = self.incoming_buffer.remove(0);
            self.ack_nr = packet.seq_nr();
            self.last_dropped = self.ack_nr;
            proof {
                assert(self.incoming_buffer@ =~= old(self).incoming_buffer@.drop_first());
                assert forall|i: int, j: int| 0 <= i < j < self.incoming_buffer@.len() implies seq_of(
                    #[trigger] self.incoming_buffer@[i],
                ) < seq_of(#[trigger] self.incoming_buffer@[j]) by {
                    assert(self.incoming_buffer@[i] == old(self).incoming_buffer@[i + 1]);
                    assert(self.incoming_buffer@[j] == old(self).incoming_buffer@[j + 1]);
                }
            }
            Some(packet)
        } else {
            None
        }
    }

    /// Whether flushing the incoming buffer would compare against the successor of the largest
    /// acknowledgement number, which overflows.
    pub open spec fn flush_overflows(&self) -> bool {
        &&& self.pending_data@.len() == 0
        &&& self.incoming_buffer@.len() > 0
        &&& self.ack_nr != seq_of(self.incoming_buffer@[0])
        &&& self.ack_nr == u16::MAX
    }

    /// Tells whether flushing the incoming buffer would overflow.
    pub fn flush_would_overflow(&self) -> (b: bool)
        ensures
            b == self.flush_overflows(),
    {
        self.pending_data.len() == 0 && self.incoming_buffer.len() > 0 && self.ack_nr
            != self.incoming_buffer[0].seq_nr() && self.ack_nr == u16::MAX
    }

    /// Whether the first packet of the incoming buffer is the next one to deliver: the last one
    /// acknowledged or its successor.
    pub open spec fn next_in_order(&self) -> bool {
        &&& self.incoming_buffer@.len() > 0
        &&& (self.ack_nr == seq_of(self.incoming_buffer@[0]) || self.ack_nr + 1 == seq_of(
            self.incoming_buffer@[0],
        ))
    }

    /// Whether `new` is `old` after returning `out`, the first `max_len` bytes of `data`: where
    /// that is all of `data`, the first packet of the incoming buffer leaves it; otherwise what is
    /// left of `data` is kept apart.
    pub open spec fn flushed_from(&self, old: Self, data: Seq<u8>, max_len: usize, out: Seq<u8>) -> bool {
        let n = min_len(data.len(), max_len as nat) as int;
        &&& out == data.subrange(0, n)
        &&& n == data.len() ==> self.pending_data@.len() == 0 && self.advanced_from(old)
        &&& n < data.len() ==> {
            &&& self.pending_data@ == data.subrange(n, data.len() as int)
            &&& self.incoming_buffer@ == old.incoming_buffer@
            &&& self.ack_nr == old.ack_nr
            &&& self.last_dropped == old.last_dropped
        }
    }

    /// Whether `new` is `old` after one flush of at most `max_len` bytes that returned `out`:
    /// what is left of a partially read packet comes first; otherwise the payload of the first
    /// packet of the incoming buffer where it is the next one in order; otherwise nothing, and
    /// the socket is unchanged.
    pub open spec fn flush_step(&self, old: Self, max_len: usize, out: Seq<u8>) -> bool {
        &&& old.pending_data@.len() > 0 ==> self.flushed_from(old, old.pending_data@, max_len, out)
        &&& old.pending_data@.len() == 0 && old.next_in_order() ==> self.flushed_from(
            old,
            old.incoming_buffer@[0]@.payload,
            max_len,
            out,
        )
        &&& old.pending_data@.len() == 0 && !old.next_in_order() ==> out.len() == 0 && *self == old
    }

    /// Returns the received data that is ready in order, at most `max_len` bytes: first what is
    /// left of a partially read packet, otherwise the payload of the first packet of the incoming
    /// buffer where it is the next one in order. A packet whose data was wholly returned leaves
    /// the buffer; what is left of a partially returned one is kept apart.
    pub fn flush_incoming_buffer(&mut self, max_len: usize) -> (out: Vec<u8>)
        requires
            old(self).wf(),
            !old(self).flush_overflows(),
        ensures
            final(self).wf(),
            *final(self) == (SocketCore {
                incoming_buffer: final(self).incoming_buffer,
                ack_nr: final(self).ack_nr,
                last_dropped: final(self).last_dropped,
                pending_data: final(self).pending_data,
                ..*old(self)
            }),
            old(self).pending_data@.len() > 0 ==> final(self).flushed_from(
                *old(self),
                old(self).pending_data@,
                max_len,
                out@,
            ),
            old(self).pending_data@.len() == 0 && old(self).next_in_order() ==> final(self).flushed_from(
                *old(self),
                old(self).incoming_buffer@[0]@.payload,
                max_len,
                out@,
            ),
            old(self).pending_data@.len() == 0 && !old(self).next_in_order() ==> out@.len() == 0
                && *final(self) == *old(self),
            final(self).flush_step(*old(self), max_len, out@),
    {
        // Return pending data from a partially read packet
        if self.pending_data.len() != 0 {
            let len = self.pending_data.len();
            let flushed = if len <= max_len {
                len
            } else {
                max_len
            };
            let out = slice_to_vec(&self.pending_data.as_slice()[0..flushed]);
            if flushed == len {
                self.pending_data.clear();
                self.advance_incoming_buffer();
            } else {
                self.pending_data = slice_to_vec(&self.pending_data.as_slice()[flushed..len]);
            }
            return out;
        }
        if self.incoming_buffer.len() != 0 && (self.ack_nr == self.incoming_buffer[0].seq_nr()
            || self.ack_nr + 1 == self.incoming_buffer[0].seq_nr()) {
            let payload = self.incoming_buffer[0].payload();
            let len = payload.len();
            let flushed = if len <= max_len {
                len
            } else {
                max_len
            };
            let out = slice_to_vec(&payload[0..flushed]);
            if flushed == len {
                self.advance_incoming_buffer();
            } else {
                self.pending_data = slice_to_vec(&payload[flushed..len]);
            }
            return out;
        }
        Vec::new()
    }

    /// What a read returns once the incoming buffer was flushed into `read` bytes: those bytes
    /// where there are any; otherwise a connection reset where the peer reset it; otherwise
    /// nothing yet (`None`), and the socket must receive more.
    pub fn read_result(&self, read: usize) -> (r: Option<Result<usize, SocketError>>)
        ensures
            read > 0 ==> r == Some(Ok::<usize, SocketError>(read)),
            read == 0 && self.state == SocketState::ResetReceived ==> r == Some(
                Err::<usize, SocketError>(SocketError::ConnectionReset),
            ),
            read == 0 && self.state != SocketState::ResetReceived ==> r is None,
    {
        if read > 0 {
            Some(Ok(read))
        } else if self.state == SocketState::ResetReceived {
            Some(Err(SocketError::ConnectionReset))
        } else {
            None
        }
    }

    /// Inserts a packet into the socket's buffer.
    ///
    /// The packet is inserted in such a way that the packets in the buffer are sorted according to
    /// their sequence number in ascending order. This allows storing packets that were received out
    /// of order.
    ///
    /// Trying to insert a duplicate of a packet will silently fail.
    pub fn insert_into_buffer(&mut self, packet: Packet)
        requires
            old(self).wf(),
        ensures
            final(self).wf(),
            final(self).incoming_buffer@ == buffer_insert(old(self).incoming_buffer@, packet),
            *final(self) == (SocketCore { incoming_buffer: final(self).incoming_buffer, ..*old(self) }),
    {
        let ghost s = self.incoming_buffer@;
        let x = packet.seq_nr();
        proof {
            lemma_count_below_sorted(s, x);
        }
        // Immediately push to the end if the packet's sequence number comes after the last
        // packet's.
        let n = self.incoming_buffer.len();
        if n > 0 && x > self.incoming_buffer[n - 1].seq_nr() {
            proof {
                assert forall|k: int| 0 <= k < s.len() implies seq_of(#[trigger] s[k]) < x by {
                    if k < s.len() - 1 {
                        assert(seq_of(s[k]) < seq_of(s[s.len() - 1]));
                    }
                }
                lemma_count_below_all(s, x);
                assert(s.insert(s.len() as int, packet) =~= s.push(packet));
            }
            self.incoming_buffer.push(packet);
        } else {
            // Find index following the most recent packet before the one we wish to insert
            let mut i: usize = 0;
            let mut k: usize = 0;
            while k < n
                invariant
                    n == s.len(),
                    self.incoming_buffer@ == s,
                    k <= n,
                    i == count_below(s.subrange(0, k as int), x),
                    i <= k,
                decreases n - k,
            {
                proof {
                    assert(s.subrange(0, k + 1).drop_last() =~= s.subrange(0, k as int));
                }
                if self.incoming_buffer[k].seq_nr() < x {
                    i = i + 1;
                }
                k = k + 1;
            }
            assert(s.subrange(0, n as int) =~= s);
            if i >= n || self.incoming_buffer[i].seq_nr() != x {
                self.incoming_buffer.insert(i, packet);
                proof {
                    let t = self.incoming_buffer@;
                    assert forall|a: int, b: int| 0 <= a < b < t.len() implies seq_of(#[trigger] t[a])
                        < seq_of(#[trigger] t[b]) by {
                        if a < i && b < i {
                        } else if a < i && b == i {
                        } else if a < i {
                            assert(t[b] == s[b - 1]);
                        } else if a == i {
                            assert(t[b] == s[b - 1]);
                            assert(seq_of(s[b - 1]) >= x);
                        } else {
                            assert(t[a] == s[a - 1]);
                            assert(t[b] == s[b - 1]);
                        }
                    }
                }
            }
        }
    }

    /// Whether building a selective acknowledgement stays clear of the successor of the largest
    /// acknowledgement number, which overflows.
    pub open spec fn sack_in_range(&self) -> bool {
        self.incoming_buffer@.len() == 0 || self.ack_nr < u16::MAX
    }

    /// Whether `sack` is the selective acknowledgement of the whole incoming buffer.
    pub open spec fn reports(&self, sack: Seq<u8>) -> bool {
        sack_reports(self.incoming_buffer@, self.ack_nr, self.incoming_buffer@.len() as int, sack)
    }

    /// Builds the selective acknowledgement extension data for usage in packets: bit `i` is set
    /// where the incoming buffer holds the packet `ack_nr + 2 + i`, and the length is the least
    /// multiple of 4 that holds every such bit.
    pub fn build_selective_ack(&self) -> (r: Vec<u8>)
        requires
            self.sack_in_range(),
        ensures
            self.reports(r@),
    {
        let ghost s = self.incoming_buffer@;
        let ghost ack = self.ack_nr;
        let n = self.incoming_buffer.len();
        let mut sack: Vec<u8> = Vec::new();
        let mut k: usize = 0;
        while k < n
            invariant
                n == s.len(),
                s == self.incoming_buffer@,
                ack == self.ack_nr,
                self.sack_in_range(),
                k <= n,
                sack_reports(s, ack, k as int, sack@),
                sack@.len() <= 8192,
            decreases n - k,
        {
            let seq: u16 = self.incoming_buffer[k].seq_nr();
            if seq > self.ack_nr + 1 {
                let diff: usize = (seq - self.ack_nr - 2) as usize;
                let byte: usize = diff / 8;
                let bit: u8 = (diff % 8) as u8;
                let ghost before = sack@;
                let ghost l0: nat = sack@.len();
                let ghost target: int = sack_target(byte as int, l0 as int);
                // Make sure the amount of elements in the SACK vector is a
                // multiple of 4 and enough to represent the lost packets
                while byte >= sack.len() || sack.len() % 4 != 0
                    invariant
                        l0 <= sack@.len() <= target,
                        l0 % 4 == 0,
                        l0 == before.len(),
                        target == sack_target(byte as int, l0 as int),
                        byte < 8192,
                        forall|j: int| 0 <= j < l0 ==> sack@[j] == before[j],
                        forall|j: int| l0 <= j < sack@.len() ==> sack@[j] == 0u8,
                    decreases target - sack@.len(),
                {
                    proof {
                        if byte >= l0 && sack@.len() == target {
                            assert((4 * (byte / 4) + 4) % 4 == 0);
                        }
                    }
                    sack.push(0u8);
                }
                proof {
                    if byte >= l0 {
                        assert(byte < sack@.len());
                        assert(sack@.len() == target) by {
                            let m: int = sack@.len() as int;
                            assert(m % 4 == 0 && m > byte && m <= 4 * (byte / 4) + 4 ==> m == 4 * (byte / 4) + 4) by (nonlinear_arith);
                        }
                    }
                }
                let ghost mid = sack@;
                let old_byte: u8 = sack[byte];
                sack.set(byte, old_byte | (1u8 << bit));
                proof {
                    let kk: int = k as int;
                    assert(sack_len(s, ack, kk + 1) == sack@.len());
                    assert(diff == stash_index(s, ack, kk));
                    assert(is_stashed(s, ack, kk));
                    assert forall|i: int| #![trigger sack_marked(s, ack, kk + 1, i)] sack_marked(s, ack, kk + 1, i) implies 0 <= i < sack@.len() * 8 by {
                        let w: int = choose|w: int| 0 <= w < kk + 1 && is_stashed(s, ack, w) && stash_index(s, ack, w) == i;
                        if w < kk {
                            assert(sack_marked(s, ack, kk, i));
                        }
                    }
                    assert forall|i: int| 0 <= i < sack@.len() * 8 implies (bit_at(sack@, i) <==> sack_marked(s, ack, kk + 1, i)) by {
                        let bi: int = i / 8;
                        let c: u8 = (i % 8) as u8;
                        let b: u8 = mid[bi];
                        if bi == byte {
                            let v: u8 = old_byte;
                            assert(((v | (1u8 << bit)) >> c) & 1u8 == 1u8 <==> (((v >> c) & 1u8) == 1u8 || c == bit)) by (bit_vector)
                                requires
                                    c < 8,
                                    bit < 8,
                            ;
                            assert(c == bit <==> i == diff);
                        }
                        if bi >= l0 {
                            assert(b == 0u8);
                            assert((0u8 >> c) & 1u8 == 0u8) by (bit_vector);
                        }
                        if i < before.len() * 8 {
                            assert(mid[bi] == before[bi]);
                            assert(bit_at(mid, i) == bit_at(before, i));
                        }
                        if sack_marked(s, ack, kk + 1, i) && i != diff {
                            let w: int = choose|w: int| 0 <= w < kk + 1 && is_stashed(s, ack, w) && stash_index(s, ack, w) == i;
                            assert(w != kk);
                            assert(sack_marked(s, ack, kk, i));
                        }
                        if i == diff {
                            assert(sack_marked(s, ack, kk + 1, i));
                        }
                        if sack_marked(s, ack, kk, i) {
                            let w: int = choose|w: int| 0 <= w < kk && is_stashed(s, ack, w) && stash_index(s, ack, w) == i;
                            assert(sack_marked(s, ack, kk + 1, i));
                        }
                    }
                    assert(sack@.len() % 4 == 0);
                    assert(sack_reports(s, ack, kk + 1, sack@));
                }
            } else {
                proof {
                    let kk: int = k as int;
                    assert(!is_stashed(s, ack, kk));
                    assert forall|i: int| sack_marked(s, ack, kk + 1, i) <==> sack_marked(s, ack, kk, i) by {
                        if sack_marked(s, ack, kk + 1, i) {
                            let w: int = choose|w: int| 0 <= w < kk + 1 && is_stashed(s, ack, w) && stash_index(s, ack, w) == i;
                            assert(w != kk);
                        }
                        if sack_marked(s, ack, kk, i) {
                            let w: int = choose|w: int| 0 <= w < kk && is_stashed(s, ack, w) && stash_index(s, ack, w) == i;
                            assert(0 <= w < kk + 1);
                        }
                    }
                    assert(sack_len(s, ack, kk + 1) == sack_len(s, ack, kk));
                    assert forall|i: int| #[trigger] sack_marked(s, ack, kk + 1, i) implies 0 <= i < sack@.len() * 8 by {
                        assert(sack_marked(s, ack, kk, i));
                    }
                    assert forall|i: int| 0 <= i < sack@.len() * 8 implies (bit_at(sack@, i) <==> sack_marked(s, ack, kk + 1, i)) by {
                        assert(sack_marked(s, ack, kk + 1, i) == sack_marked(s, ack, kk, i));
                    }
                }
            }
            k = k + 1;
        }
        sack
    }

    /// The state after a packet's sequence number is acknowledged where it strictly follows the
    /// previous one.
    pub open spec fn acked_by(&self, p: PacketModel) -> Self {
        SocketCore {
            ack_nr: if seq_distance(p.header.seq_nr, self.ack_nr) == 1 {
                p.header.seq_nr
            } else {
                self.ack_nr
            },
            ..*self
        }
    }

    /// The state after a packet is taken in: acknowledged, and the peer's window and delay noted.
    pub open spec fn received_from(&self, p: PacketModel, now: u32) -> Self {
        SocketCore {
            remote_wnd_size: p.header.wnd_size,
            their_delay: abs_difference(now, p.header.timestamp_microseconds),
            ..self.acked_by(p)
        }
    }

    /// Whether a packet that is not a SYN, outside connection setup, carries a connection id of
    /// neither side.
    pub open spec fn id_mismatch(&self, p: PacketModel) -> bool {
        &&& p.header.ty != PacketType::Syn
        &&& self.state != SocketState::SynSent
        &&& !(p.header.connection_id == self.sender_connection_id || p.header.connection_id
            == self.receiver_connection_id)
    }

    /// Whether `q` is the reply of type `t` to `p` at time `now`, with a selective
    /// acknowledgement where `p` is ahead of the next expected packet and some later packet is
    /// stashed.
    pub open spec fn sack_reply(&self, p: PacketModel, t: PacketType, now: u32, q: PacketModel) -> bool {
        let base = self.reply_model(p, t, now);
        if seq_distance(p.header.seq_nr, self.ack_nr) > 1 && sack_len(
            self.incoming_buffer@,
            self.ack_nr,
            self.incoming_buffer@.len() as int,
        ) > 0 {
            &&& q.header == (HeaderModel { extension: 1, ..base.header })
            &&& q.payload.len() == 0
            &&& q.extensions.len() == 1
            &&& q.extensions[0].ty == ExtensionType::SelectiveAck
            &&& self.reports(q.extensions[0].data)
        } else {
            q == base
        }
    }

    /// Whether handling `p` stays clear of overflows: a SYN's connection id is not the largest,
    /// a connecting socket's sequence number is not the largest, and a selective acknowledgement
    /// built in reply does not overflow.
    pub open spec fn handle_in_range(&self, p: PacketModel) -> bool {
        let b = self.received_from(p, 0);
        !self.id_mismatch(p) ==> match (self.state, p.header.ty) {
            (SocketState::New, PacketType::Syn) => p.header.connection_id < u16::MAX,
            (SocketState::SynSent, PacketType::State) => self.seq_nr < u16::MAX,
            (SocketState::Connected, PacketType::Data) | (SocketState::FinSent, PacketType::Data) | (
                SocketState::Connected,
                PacketType::Fin,
            ) | (SocketState::FinSent, PacketType::Fin) => seq_distance(p.header.seq_nr, b.ack_nr)
                > 1 ==> b.sack_in_range(),
            _ => true,
        }
    }

    /// Tells whether handling `packet` stays clear of overflows.
    pub fn can_handle(&self, packet: &Packet) -> (b: bool)
        ensures
            b == self.handle_in_range(packet@),
    {
        let t = packet.get_type();
        if t != PacketType::Syn && self.state != SocketState::SynSent && !(packet.connection_id()
            == self.sender_connection_id || packet.connection_id() == self.receiver_connection_id) {
            return true;
        }
        let ack = if packet.seq_nr().wrapping_sub(self.ack_nr) == 1 {
            packet.seq_nr()
        } else {
            self.ack_nr
        };
        match (self.state, t) {
            (SocketState::New, PacketType::Syn) => packet.connection_id() < u16::MAX,
            (SocketState::SynSent, PacketType::State) => self.seq_nr < u16::MAX,
            (SocketState::Connected, PacketType::Data) | (SocketState::FinSent, PacketType::Data) | (
                SocketState::Connected,
                PacketType::Fin,
            ) | (SocketState::FinSent, PacketType::Fin) => !(packet.seq_nr().wrapping_sub(ack) > 1)
                || self.incoming_buffer.len() == 0 || ack < u16::MAX,
            _ => true,
        }
    }

    /// What handling `p`, received from `src` at time `now`, does: `new` is the state after it
    /// and `r` its result, where `fresh` is the sequence number a listening socket starts with.
    pub open spec fn handles(
        &self,
        new: Self,
        p: PacketModel,
        src: A,
        now: u32,
        fresh: u16,
        r: Result<Response, SocketError>,
    ) -> bool {
        let a = self.acked_by(p);
        let b = self.received_from(p, now);
        if self.id_mismatch(p) {
            &&& new == a
            &&& r matches Ok(Response::Send(q)) && q@ == a.reply_model(p, PacketType::Reset, now)
        } else {
            match (self.state, p.header.ty) {
                (SocketState::New, PacketType::Syn) => {
                    let c = SocketCore {
                        connected_to: src,
                        ack_nr: p.header.seq_nr,
                        seq_nr: fresh,
                        receiver_connection_id: (p.header.connection_id + 1) as u16,
                        sender_connection_id: p.header.connection_id,
                        state: SocketState::Connected,
                        last_dropped: p.header.seq_nr,
                        ..b
                    };
                    &&& new == c
                    &&& r matches Ok(Response::Send(q)) && q@ == c.reply_model(p, PacketType::State, now)
                },
                (_, PacketType::Syn) => {
                    &&& new == b
                    &&& r matches Ok(Response::Send(q)) && q@ == b.reply_model(p, PacketType::Reset, now)
                },
                (SocketState::SynSent, PacketType::State) => {
                    &&& new == (SocketCore {
                        connected_to: src,
                        ack_nr: p.header.seq_nr,
                        seq_nr: (self.seq_nr + 1) as u16,
                        state: SocketState::Connected,
                        last_acked: p.header.ack_nr,
                        last_acked_timestamp: now,
                        ..b
                    })
                    &&& r matches Ok(Response::Nothing)
                },
                (SocketState::SynSent, _) => {
                    &&& new == b
                    &&& r matches Err(SocketError::InvalidReply)
                },
                (SocketState::Connected, PacketType::Data) => {
                    &&& new == b
                    &&& r matches Ok(Response::Send(q)) && b.sack_reply(p, PacketType::State, now, q@)
                },
                (SocketState::FinSent, PacketType::Data) => {
                    &&& new == b
                    &&& r matches Ok(Response::Send(q)) && b.sack_reply(p, PacketType::Fin, now, q@)
                },
                (SocketState::Connected, PacketType::State) => {
                    &&& new == b
                    &&& r matches Ok(Response::ProcessState)
                },
                (SocketState::Connected, PacketType::Fin) | (SocketState::FinSent, PacketType::Fin) => {
                    &&& new == (SocketCore { state: SocketState::Closed, ..b })
                    &&& r matches Ok(Response::Send(q)) && b.sack_reply(p, PacketType::State, now, q@)
                },
                (SocketState::Closed, PacketType::Fin) => {
                    &&& new == b
                    &&& r matches Ok(Response::Send(q)) && q@ == b.reply_model(p, PacketType::State, now)
                },
                (SocketState::FinSent, PacketType::State) => {
                    if p.header.ack_nr == self.seq_nr {
                        &&& new == (SocketCore { state: SocketState::Closed, ..b })
                        &&& r matches Ok(Response::Nothing)
                    } else {
                        &&& new == b
                        &&& r matches Ok(Response::ProcessState)
                    }
                },
                (_, PacketType::Reset) => {
                    &&& new == (SocketCore { state: SocketState::ResetReceived, ..b })
                    &&& r matches Err(SocketError::ConnectionReset)
                },
                (st, ty) => {
                    &&& new == b
                    &&& r matches Err(SocketError::Other(m)) && m@ == unimplemented_text(st, ty)
                },
            }
        }
    }

    /// Builds the reply to a data packet: a State packet, or a FIN where the socket already
    /// sent one, with a selective acknowledgement where the packet is ahead of the next
    /// expected one.
    pub fn handle_data_packet(&self, packet: &Packet, now: u32) -> (reply: Packet)
        requires
            seq_distance(packet@.header.seq_nr, self.ack_nr) > 1 ==> self.sack_in_range(),
        ensures
            self.sack_reply(
                packet@,
                if self.state == SocketState::FinSent {
                    PacketType::Fin
                } else {
                    PacketType::State
                },
                now,
                reply@,
            ),
    {
        // If a FIN was previously sent, reply with a FIN packet acknowledging the received packet.
        let packet_type = if self.state == SocketState::FinSent {
            PacketType::Fin
        } else {
            PacketType::State
        };
        self.reply_with_sack(packet, packet_type, now)
    }

    /// Builds the reply of type `t` to `packet`, with a selective acknowledgement where the
    /// packet is ahead of the next expected one and some later packet is stashed.
    fn reply_with_sack(&self, packet: &Packet, t: PacketType, now: u32) -> (reply: Packet)
        requires
            seq_distance(packet@.header.seq_nr, self.ack_nr) > 1 ==> self.sack_in_range(),
        ensures
            self.sack_reply(packet@, t, now, reply@),
    {
        let mut reply = self.prepare_reply(packet, t, now);
        if packet.seq_nr().wrapping_sub(self.ack_nr) > 1 {
            // Set SACK extension payload if the packet is not in order
            let sack = self.build_selective_ack();
            if sack.len() != 0 {
                let ghost data = sack@;
                reply.set_sack(sack);
                assert(0u8 | 1u8 == 1u8) by (bit_vector);
                assert(reply@.extensions =~= seq![ExtensionModel { ty: ExtensionType::SelectiveAck, data: data }]);
            }
        }
        reply
    }

    /// Handles an incoming packet, updating socket state accordingly; `fresh_seq_nr` is the
    /// sequence number that a listening socket takes on a SYN.
    ///
    /// Returns the appropriate reply packet, if needed.
    pub fn handle_packet_with(&mut self, packet: &Packet, src: A, now: u32, fresh_seq_nr: u16) -> (r: Result<Response, SocketError>)
        requires
            old(self).wf(),
            old(self).handle_in_range(packet@),
        ensures
            final(self).wf(),
            old(self).handles(*final(self), packet@, src, now, fresh_seq_nr, r),
            (old(self).state == SocketState::Connected || old(self).state == SocketState::FinSent)
                && packet@.header.ty == PacketType::Fin && (packet@.header.connection_id
                == old(self).sender_connection_id || packet@.header.connection_id == old(
                self,
            ).receiver_connection_id) ==> final(self).state == SocketState::Closed,
    {
        // Acknowledge only if the packet strictly follows the previous one
        if packet.seq_nr().wrapping_sub(self.ack_nr) == 1 {
            self.ack_nr = packet.seq_nr();
        }
        // Reset connection if connection id doesn't match and this isn't a SYN
        if packet.get_type() != PacketType::Syn && self.state != SocketState::SynSent && !(
        packet.connection_id() == self.sender_connection_id || packet.connection_id()
            == self.receiver_connection_id) {
            return Ok(Response::Send(self.prepare_reply(packet, PacketType::Reset, now)));
        }
        // Update remote window size
        self.remote_wnd_size = packet.wnd_size();
        // Update remote peer's delay between them sending the packet and us receiving it
        self.their_delay = abs_diff(now, packet.timestamp_microseconds());

        match (self.state, packet.get_type()) {
            (SocketState::New, PacketType::Syn) => {
                self.connected_to = src;
                self.ack_nr = packet.seq_nr();
                self.seq_nr = fresh_seq_nr;
                self.receiver_connection_id = packet.connection_id() + 1;
                self.sender_connection_id = packet.connection_id();
                self.state = SocketState::Connected;
                self.last_dropped = self.ack_nr;
                Ok(Response::Send(self.prepare_reply(packet, PacketType::State, now)))
            },
            (_, PacketType::Syn) => Ok(
                Response::Send(self.prepare_reply(packet, PacketType::Reset, now)),
            ),
            (SocketState::SynSent, PacketType::State) => {
                self.connected_to = src;
                self.ack_nr = packet.seq_nr();
                self.seq_nr = self.seq_nr + 1;
                self.state = SocketState::Connected;
                self.last_acked = packet.ack_nr();
                self.last_acked_timestamp = now;
                Ok(Response::Nothing)
            },
            (SocketState::SynSent, _) => Err(SocketError::InvalidReply),
            (SocketState::Connected, PacketType::Data) | (SocketState::FinSent, PacketType::Data) => {
                Ok(Response::Send(self.handle_data_packet(packet, now)))
            },
            (SocketState::Connected, PacketType::State) => Ok(Response::ProcessState),
            (SocketState::Connected, PacketType::Fin) | (SocketState::FinSent, PacketType::Fin) => {
                let reply = self.reply_with_sack(packet, PacketType::State, now);
                // Give up, the remote peer might not care about our missing packets
                self.state = SocketState::Closed;
                Ok(Response::Send(reply))
            },
            (SocketState::Closed, PacketType::Fin) => Ok(
                Response::Send(self.prepare_reply(packet, PacketType::State, now)),
            ),
            (SocketState::FinSent, PacketType::State) => {
                if packet.ack_nr() == self.seq_nr {
                    self.state = SocketState::Closed;
                    Ok(Response::Nothing)
                } else {
                    Ok(Response::ProcessState)
                }
            },
            (_, PacketType::Reset) => {
                self.state = SocketState::ResetReceived;
                Err(SocketError::ConnectionReset)
            },
            (state, ty) => Err(unimplemented_error(state, ty)),
        }
    }

    /// Handles an incoming packet received from `src` at time `now`; a listening socket that
    /// takes a SYN starts from a random sequence number.
    pub fn handle_packet(&mut self, packet: &Packet, src: A, now: u32) -> (r: Result<Response, SocketError>)
        requires
            old(self).wf(),
            old(self).handle_in_range(packet@),
        ensures
            final(self).wf(),
            exists|fresh: u16| old(self).handles(*final(self), packet@, src, now, fresh, r),
            (old(self).state == SocketState::Connected || old(self).state == SocketState::FinSent)
                && packet@.header.ty == PacketType::Fin && (packet@.header.connection_id
                == old(self).sender_connection_id || packet@.header.connection_id == old(
                self,
            ).receiver_connection_id) ==> final(self).state == SocketState::Closed,
    {
        let fresh = random_u16();
        self.handle_packet_with(packet, src, now, fresh)
    }

    /// Whether the socket has anything to do to close: it is neither closed, nor new, nor still
    /// connecting.
    pub fn close_needed(&self) -> (b: bool)
        ensures
            b == !(self.state == SocketState::Closed || self.state == SocketState::New || self.state
                == SocketState::SynSent),
    {
        !(self.state == SocketState::Closed || self.state == SocketState::New || self.state
            == SocketState::SynSent)
    }

    /// The read timeout of the socket while waiting for a packet: the congestion timeout, in
    /// milliseconds, except for a new socket, which waits without limit.
    pub fn read_timeout(&self) -> (t: Option<u64>)
        ensures
            self.state != SocketState::New ==> t == Some(self.congestion_timeout),
            self.state == SocketState::New ==> t is None,
    {
        if self.state != SocketState::New {
            Some(self.congestion_timeout)
        } else {
            None
        }
    }

    /// Gives up waiting for a packet after `retries` tries once they reach the maximum number of
    /// retransmission retries: the socket closes and the connection times out.
    pub fn check_retries(&mut self, retries: u32) -> (r: Result<(), SocketError>)
        ensures
            retries >= old(self).max_retransmission_retries ==> (r matches Err(
                SocketError::ConnectionTimedOut,
            ) && *final(self) == (SocketCore { state: SocketState::Closed, ..*old(self) })),
            retries < old(self).max_retransmission_retries ==> r is Ok && *final(self) == *old(
                self,
            ),
    {
        if retries >= self.max_retransmission_retries {
            self.state = SocketState::Closed;
            return Err(SocketError::ConnectionTimedOut);
        }
        Ok(())
    }

    /// Handles the expiry of the read timeout at time `now`: the congestion timeout doubles, the
    /// congestion window shrinks to one segment, and the socket resends its FIN, asks for a fast
    /// resend, or resends the first unacknowledged packet stamped with `now`.
    pub fn handle_receive_timeout(&mut self, now: u32) -> (r: TimeoutAction)
        requires
            old(self).wf(),
            old(self).congestion_timeout <= u64::MAX / 2,
        ensures
            final(self).wf(),
            *final(self) == (SocketCore {
                congestion_timeout: (old(self).congestion_timeout * 2) as u64,
                cwnd: MSS,
                send_window: final(self).send_window,
                ..*old(self)
            }),
            old(self).send_window@.len() == 0 ==> final(self).send_window@ == old(self).send_window@,
            old(self).send_window@.len() == 0 && old(self).state == SocketState::FinSent ==> (r matches TimeoutAction::ResendFin(q) && q@ == old(self).control_model(PacketType::Fin, old(self).sender_connection_id, now, 0)),
            old(self).send_window@.len() == 0 && old(self).state != SocketState::FinSent && old(self).state != SocketState::New ==> r matches TimeoutAction::FastResendRequest,
            old(self).send_window@.len() == 0 && old(self).state == SocketState::New ==> r matches TimeoutAction::Nothing,
            old(self).send_window@.len() > 0 ==> (r matches TimeoutAction::Resend(q) && q@ == (PacketModel {
                header: HeaderModel { timestamp_microseconds: now, ..old(self).send_window@[0]@.header },
                ..old(self).send_window@[0]@
            }) && final(self).send_window@.len() == old(self).send_window@.len() && final(self).send_window@[0]@ == q@
                && forall|k: int| 0 < k < old(self).send_window@.len() ==> #[trigger] final(self).send_window@[k] == old(self).send_window@[k]),
    {
        self.congestion_timeout = self.congestion_timeout * 2;
        self.cwnd = MSS;

        // There are three possible cases here:
        //
        // - If the socket is sending and waiting for acknowledgements (the send window is
        //   not empty), resend the first unacknowledged packet;
        //
        // - If the socket is not sending and it hasn't sent a FIN yet, then it's waiting
        //   for incoming packets: send a fast resend request;
        //
        // - If the socket sent a FIN previously, resend it.
        if self.send_window.len() == 0 {
            if self.state == SocketState::FinSent {
                TimeoutAction::ResendFin(self.fin_packet(now))
            } else if self.state != SocketState::New {
                TimeoutAction::FastResendRequest
            } else {
                TimeoutAction::Nothing
            }
        } else {
            // The socket is sending data packets but there is no reply from the remote
            // peer: resend the first unacknowledged packet with the current timestamp.
            let mut packet = self.send_window[0].clone();
            packet.set_timestamp_microseconds(now);
            let ghost old_window = self.send_window@;
            let copy = packet.clone();
            proof {
                lemma_window_bytes_update(old_window, 0, copy);
            }
            self.send_window.set(0, copy);
            TimeoutAction::Resend(packet)
        }
    }

    /// Queues `buf` for sending, split into data packets of at most `CHUNK_SIZE` bytes with
    /// consecutive sequence numbers, wrapping around; a closed socket refuses.
    pub fn queue_data(&mut self, buf: &[u8]) -> (r: Result<usize, SocketError>)
        ensures
            old(self).state == SocketState::Closed ==> (r matches Err(SocketError::ConnectionClosed)
                && *final(self) == *old(self)),
            old(self).state != SocketState::Closed ==> {
                let n = chunk_count(buf@.len());
                &&& r == Ok::<usize, SocketError>(buf@.len() as usize)
                &&& final(self).seq_nr == (old(self).seq_nr + n) % 65536
                &&& final(self).unsent_queue@.len() == old(self).unsent_queue@.len() + n
                &&& final(self).unsent_queue@.subrange(0, old(self).unsent_queue@.len() as int) == old(self).unsent_queue@
                &&& forall|i: int| #![trigger final(self).unsent_queue@[old(self).unsent_queue@.len() + i]] 0 <= i < n ==> final(self).unsent_queue@[old(self).unsent_queue@.len() + i]@ == data_packet_model(
                    buf@,
                    i * CHUNK_SIZE,
                    if (i + 1) * CHUNK_SIZE <= buf@.len() { (i + 1) * CHUNK_SIZE } else { buf@.len() as int },
                    ((old(self).seq_nr + i) % 65536) as u16,
                    old(self).ack_nr,
                    old(self).sender_connection_id,
                )
                &&& *final(self) == (SocketCore { seq_nr: final(self).seq_nr, unsent_queue: final(self).unsent_queue, ..*old(self) })
            },
    {
        if self.state == SocketState::Closed {
            return Err(SocketError::ConnectionClosed);
        }
        let total_length = buf.len();
        let ghost q0 = self.unsent_queue@;
        let ghost seq0 = self.seq_nr;
        let mut start: usize = 0;
        let mut i: usize = 0;
        while start < total_length
            invariant
                total_length == buf@.len(),
                start <= total_length,
                start < total_length ==> start == i * CHUNK_SIZE,
                start < total_length ==> i < chunk_count(buf@.len()),
                start >= total_length ==> i == chunk_count(buf@.len()),
                self.seq_nr == (seq0 + i) % 65536,
                self.unsent_queue@.len() == q0.len() + i,
                self.unsent_queue@.subrange(0, q0.len() as int) == q0,
                forall|j: int| #![trigger self.unsent_queue@[q0.len() + j]] 0 <= j < i ==> self.unsent_queue@[q0.len() + j]@ == data_packet_model(
                    buf@,
                    j * CHUNK_SIZE,
                    if (j + 1) * CHUNK_SIZE <= buf@.len() { (j + 1) * CHUNK_SIZE } else { buf@.len() as int },
                    ((seq0 + j) % 65536) as u16,
                    self.ack_nr,
                    self.sender_connection_id,
                ),
                *self == (SocketCore { seq_nr: self.seq_nr, unsent_queue: self.unsent_queue, ..*old(self) }),
            decreases total_length - start,
        {
            let end: usize = if total_length - start >= CHUNK_SIZE {
                start + CHUNK_SIZE
            } else {
                total_length
            };
            let mut packet = Packet::with_payload(&buf[start..end]);
            packet.set_seq_nr(self.seq_nr);
            packet.set_ack_nr(self.ack_nr);
            packet.set_connection_id(self.sender_connection_id);
            let ghost before = self.unsent_queue@;
            self.unsent_queue.push_back(packet);
            // Intentionally wrap around sequence number
            self.seq_nr = self.seq_nr.wrapping_add(1);
            proof {
                assert(self.unsent_queue@.subrange(0, q0.len() as int) =~= q0);
                assert(self.unsent_queue@[q0.len() + i] == packet);
                assert(end == (if (i + 1) * CHUNK_SIZE <= buf@.len() { (i + 1) * CHUNK_SIZE } else { buf@.len() as int }));
                assert forall|j: int| #![trigger self.unsent_queue@[q0.len() + j]] 0 <= j < i + 1 implies self.unsent_queue@[q0.len() + j]@ == data_packet_model(
                    buf@,
                    j * CHUNK_SIZE,
                    if (j + 1) * CHUNK_SIZE <= buf@.len() { (j + 1) * CHUNK_SIZE } else { buf@.len() as int },
                    ((seq0 + j) % 65536) as u16,
                    self.ack_nr,
                    self.sender_connection_id,
                ) by {
                    if j < i {
                        assert(self.unsent_queue@[q0.len() + j] == before[q0.len() + j]);
                    }
                }
                let n = buf@.len();
                if end < total_length {
                    assert((i + 1) * CHUNK_SIZE < n);
                    assert(i + 1 < chunk_count(n)) by (nonlinear_arith)
                        requires
                            (i + 1) * 1380 < n,
                            chunk_count(n) == (if n == 0 { 0 } else { ((n - 1) / 1380 + 1) as nat }),
                    ;
                } else {
                    assert(i + 1 == chunk_count(n)) by (nonlinear_arith)
                        requires
                            i * 1380 < n,
                            n <= (i + 1) * 1380,
                            chunk_count(n) == (if n == 0 { 0 } else { ((n - 1) / 1380 + 1) as nat }),
                    ;
                }
            }
            assert(end < total_length ==> end == (i + 1) * CHUNK_SIZE);
            start = end;
            i = i + 1;
        }
        Ok(total_length)
    }

    /// Takes the next packet waiting to be sent, if any.
    pub fn next_unsent(&mut self) -> (r: Option<Packet>)
        ensures
            old(self).unsent_queue@.len() == 0 ==> r is None && final(self).unsent_queue@ == old(self).unsent_queue@,
            old(self).unsent_queue@.len() > 0 ==> r == Some(old(self).unsent_queue@[0])
                && final(self).unsent_queue@ == old(self).unsent_queue@.drop_first(),
            *final(self) == (SocketCore { unsent_queue: final(self).unsent_queue, ..*old(self) }),
    {
        let r = self.unsent_queue.pop_front();
        proof {
            if old(self).unsent_queue@.len() > 0 {
                assert(self.unsent_queue@ =~= old(self).unsent_queue@.drop_first());
            }
        }
        r
    }

    /// Records a packet as sent: it joins the send window and its bytes count as in flight.
    pub fn record_sent(&mut self, packet: Packet)
        requires
            old(self).wf(),
            old(self).curr_window + packet_len(packet@) <= u32::MAX,
        ensures
            final(self).wf(),
            final(self).curr_window == old(self).curr_window + packet_len(packet@),
            final(self).send_window@ == old(self).send_window@.push(packet),
            *final(self) == (SocketCore {
                curr_window: final(self).curr_window,
                send_window: final(self).send_window,
                ..*old(self)
            }),
    {
        let len = packet.len();
        proof {
            lemma_window_bytes_push(self.send_window@, packet);
        }
        self.curr_window = self.curr_window + len as u32;
        self.send_window.push(packet);
    }

    /// The most bytes the socket lets be in flight: the smaller of its congestion window and the
    /// peer's window, but at least `MIN_CWND` segments.
    pub fn max_inflight(&self) -> (m: u32)
        ensures
            m == (if self.cwnd <= self.remote_wnd_size { self.cwnd } else { self.remote_wnd_size }) || m == MIN_CWND * MSS,
            m >= MIN_CWND * MSS,
            m >= (if self.cwnd <= self.remote_wnd_size { self.cwnd } else { self.remote_wnd_size }),
    {
        let max_inflight = if self.cwnd <= self.remote_wnd_size {
            self.cwnd
        } else {
            self.remote_wnd_size
        };
        if MIN_CWND * MSS >= max_inflight {
            MIN_CWND * MSS
        } else {
            max_inflight
        }
    }

    /// Whether the remote peer already acknowledged `packet`: its sequence number lies at most
    /// half the sequence space behind the last acknowledged one.
    pub fn already_acknowledged(&self, packet: &Packet) -> (b: bool)
        ensures
            b == (seq_distance(packet@.header.seq_nr, self.last_acked) > seq_distance(
                self.last_acked,
                packet@.header.seq_nr,
            )),
    {
        // If there were no wrapping around of sequence numbers, we'd simply check if the packet's
        // sequence number is greater than `last_acked`.
        let distance_a = packet.seq_nr().wrapping_sub(self.last_acked);
        let distance_b = self.last_acked.wrapping_sub(packet.seq_nr());
        distance_a > distance_b
    }

    /// Stamps an outgoing packet with the time `now` and the peer's last measured delay.
    pub fn stamp_outgoing(&self, packet: &mut Packet, now: u32)
        ensures
            final(packet)@ == (PacketModel {
                header: HeaderModel {
                    timestamp_microseconds: now,
                    timestamp_difference_microseconds: self.their_delay,
                    ..old(packet)@.header
                },
                ..old(packet)@
            }),
    {
        packet.set_timestamp_microseconds(now);
        packet.set_timestamp_difference_microseconds(self.their_delay);
    }

    /// Keeps a received packet for delivery: a data packet is inserted into the incoming buffer,
    /// unless it is a duplicate of the last packet delivered.
    pub fn accept_packet(&mut self, packet: Packet)
        requires
            old(self).wf(),
        ensures
            final(self).wf(),
            final(self).incoming_buffer@ == accepted(old(self).incoming_buffer@, old(self).last_dropped, packet),
            packet@.header.ty == PacketType::Data && seq_distance(packet@.header.seq_nr, old(self).last_dropped) > 0
                ==> final(self).incoming_buffer@ == buffer_insert(old(self).incoming_buffer@, packet),
            !(packet@.header.ty == PacketType::Data && seq_distance(packet@.header.seq_nr, old(self).last_dropped) > 0)
                ==> final(self).incoming_buffer@ == old(self).incoming_buffer@,
            *final(self) == (SocketCore { incoming_buffer: final(self).incoming_buffer, ..*old(self) }),
    {
        if packet.get_type() == PacketType::Data && packet.seq_nr().wrapping_sub(self.last_dropped) > 0 {
            self.insert_into_buffer(packet);
        }
    }

    /// Returns the address of the remote peer, which the socket has only while it is connected
    /// or closing.
    pub fn peer_addr(&self) -> (r: Result<A, SocketError>)
        where A: Copy
        ensures
            self.state == SocketState::Connected || self.state == SocketState::FinSent ==> r
                == Ok::<A, SocketError>(self.connected_to),
            !(self.state == SocketState::Connected || self.state == SocketState::FinSent) ==> r
                == Err::<A, SocketError>(SocketError::NotConnected),
    {
        if self.state == SocketState::Connected || self.state == SocketState::FinSent {
            Ok(self.connected_to)
        } else {
            Err(SocketError::NotConnected)
        }
    }
}

proof fn lemma_window_bytes_same(s: Seq<Packet>, t: Seq<Packet>, i: int)
    requires
        0 <= i <= s.len(),
        s.len() == t.len(),
        forall|k: int| i <= k < s.len() ==> packet_len((#[trigger] s[k])@) == packet_len(t[k]@),
    ensures
        window_bytes(s, i) == window_bytes(t, i),
    decreases s.len() - i,
{
    if i < s.len() {
        lemma_window_bytes_same(s, t, i + 1);
    }
}

proof fn lemma_window_bytes_update(s: Seq<Packet>, i: int, p: Packet)
    requires
        0 <= i < s.len(),
        packet_len(p@) == packet_len(s[i]@),
    ensures
        window_bytes(s.update(i, p), 0) == window_bytes(s, 0),
{
    let t = s.update(i, p);
    assert forall|k: int| 0 <= k < s.len() implies packet_len((#[trigger] s[k])@) == packet_len(t[k]@) by {
        if k != i {
            assert(t[k] == s[k]);
        }
    }
    lemma_window_bytes_same(s, t, 0);
}

proof fn lemma_window_bytes_push(s: Seq<Packet>, p: Packet)
    ensures
        window_bytes(s.push(p), 0) == window_bytes(s, 0) + packet_len(p@),
{
    lemma_window_bytes_push_from(s, p, 0);
}

proof fn lemma_window_bytes_push_from(s: Seq<Packet>, p: Packet, i: int)
    requires
        0 <= i <= s.len(),
    ensures
        window_bytes(s.push(p), i) == window_bytes(s, i) + packet_len(p@),
    decreases s.len() - i,
{
    if i < s.len() {
        lemma_window_bytes_push_from(s, p, i + 1);
        assert(s.push(p)[i] == s[i]);
    } else {
        assert(s.push(p)[i] == p);
        assert(window_bytes(s.push(p), i + 1) == 0);
    }
}

pub(crate) proof fn lemma_count_below_sorted(s: Seq<Packet>, x: u16)
    requires
        sorted_by_seq(s),
    ensures
        count_below(s, x) <= s.len(),
        forall|k: int| 0 <= k < count_below(s, x) ==> seq_of(#[trigger] s[k]) < x,
        forall|k: int| count_below(s, x) <= k < s.len() ==> seq_of(#[trigger] s[k]) >= x,
    decreases s.len(),
{
    if s.len() > 0 {
        let t = s.drop_last();
        assert(sorted_by_seq(t)) by {
            assert forall|i: int, j: int| 0 <= i < j < t.len() implies seq_of(#[trigger] t[i])
                < seq_of(#[trigger] t[j]) by {
                assert(t[i] == s[i] && t[j] == s[j]);
            }
        }
        lemma_count_below_sorted(t, x);
        if seq_of(s.last()) < x {
            assert forall|k: int| 0 <= k < t.len() implies seq_of(#[trigger] t[k]) < x by {
                if k < t.len() {
                    assert(seq_of(s[k]) < seq_of(s[s.len() - 1]));
                }
            }
        }
        assert forall|k: int| 0 <= k < count_below(s, x) implies seq_of(#[trigger] s[k]) < x by {
            if k < t.len() {
                assert(t[k] == s[k]);
            }
        }
        assert forall|k: int| count_below(s, x) <= k < s.len() implies seq_of(#[trigger] s[k]) >= x by {
            if k < t.len() {
                assert(t[k] == s[k]);
            }
        }
    }
}

proof fn lemma_count_below_all(s: Seq<Packet>, x: u16)
    requires
        forall|k: int| 0 <= k < s.len() ==> seq_of(#[trigger] s[k]) < x,
    ensures
        count_below(s, x) == s.len(),
    decreases s.len(),
{
    if s.len() > 0 {
        let t = s.drop_last();
        assert forall|k: int| 0 <= k < t.len() implies seq_of(#[trigger] t[k]) < x by {
            assert(t[k] == s[k]);
        }
        lemma_count_below_all(t, x);
    }
}

} // verus!

//! The basic packet format: a 20-byte header and a payload, with no extensions. Decoding takes
//! the header fields as they stand and every byte after the header as payload.
use crate::packet::{
    be16, be32, copy_bytes, get_be16, get_be32, packet_type_number, packet_type_of_number,
    push_be16, push_be32, read_be16, read_be32, type_number, type_of_number, PacketType,
    HEADER_SIZE,
};
use crate::packet_laws::{lemma_be16, lemma_be32, lemma_read_be16, lemma_read_be32};
use vstd::prelude::*;

verus! {

/// The header of a packet, each field as the number it stands for on the wire.
#[derive(Clone, Copy, Debug, PartialEq, Eq, Structural)]
pub struct UtpPacketHeader {
    /// The packet type in the high nibble, the protocol version in the low one.
    pub type_ver: u8,
    /// The type of the first extension, 0 for none.
    pub extension: u8,
    pub connection_id: u16,
    pub timestamp_microseconds: u32,
    pub timestamp_difference_microseconds: u32,
    pub wnd_size: u32,
    pub seq_nr: u16,
    pub ack_nr: u16,
}

/// The 20 bytes of a header, multi-byte fields in network byte order.
pub open spec fn raw_header_bytes(h: UtpPacketHeader) -> Seq<u8> {
    seq![h.type_ver, h.extension] + be16(h.connection_id) + be32(h.timestamp_microseconds) + be32(
        h.timestamp_difference_microseconds,
    ) + be32(h.wnd_size) + be16(h.seq_nr) + be16(h.ack_nr)
}

/// The header that the first 20 bytes of `b` hold.
pub open spec fn raw_header_of(b: Seq<u8>) -> UtpPacketHeader {
    UtpPacketHeader {
        type_ver: b[0],
        extension: b[1],
        connection_id: read_be16(b, 2),
        timestamp_microseconds: read_be32(b, 4),
        timestamp_difference_microseconds: read_be32(b, 8),
        wnd_size: read_be32(b, 12),
        seq_nr: read_be16(b, 16),
        ack_nr: read_be16(b, 18),
    }
}

/// The header of a new packet: a data packet of version 1, every other field 0.
pub open spec fn new_raw_header() -> UtpPacketHeader {
    UtpPacketHeader {
        type_ver: 1,
        extension: 0,
        connection_id: 0,
        timestamp_microseconds: 0,
        timestamp_difference_microseconds: 0,
        wnd_size: 0,
        seq_nr: 0,
        ack_nr: 0,
    }
}

/// The first byte of a header once its type is set to `t`: the version nibble stays.
pub open spec fn with_type(type_ver: u8, t: PacketType) -> u8 {
    (type_number(t) * 16 + type_ver % 16) as u8
}

impl UtpPacketHeader {
    /// Sets the type of packet to the specified type.
    pub fn set_type(&mut self, t: PacketType)
        ensures
            *final(self) == (UtpPacketHeader { type_ver: with_type(old(self).type_ver, t), ..*old(self) }),
    {
        let version = self.type_ver % 16;
        self.type_ver = packet_type_number(t) * 16 + version;
    }

    /// Returns the packet's type, which the high nibble of the first byte numbers.
    pub fn get_type(&self) -> (t: PacketType)
        requires
            self.type_ver / 16 <= 4,
        ensures
            t == type_of_number(self.type_ver / 16),
    {
        packet_type_of_number(self.type_ver / 16)
    }

    /// Returns the packet's version, the low nibble of the first byte.
    pub fn get_version(&self) -> (v: u8)
        ensures
            v == self.type_ver % 16,
    {
        self.type_ver % 16
    }

    /// Returns the packet header as bytes, in network byte order.
    pub fn bytes(&self) -> (b: Vec<u8>)
        ensures
            b@ == raw_header_bytes(*self),
    {
        let mut b: Vec<u8> = Vec::new();
        b.push(self.type_ver);
        b.push(self.extension);
        push_be16(&mut b, self.connection_id);
        push_be32(&mut b, self.timestamp_microseconds);
        push_be32(&mut b, self.timestamp_difference_microseconds);
        push_be32(&mut b, self.wnd_size);
        push_be16(&mut b, self.seq_nr);
        push_be16(&mut b, self.ack_nr);
        assert(b@ =~= raw_header_bytes(*self));
        b
    }

    /// Returns the length of a header in bytes.
    pub fn len(&self) -> (n: usize)
        ensures
            n == HEADER_SIZE,
    {
        HEADER_SIZE
    }

    /// Reads a byte buffer and returns the corresponding packet header. It assumes the fields
    /// are in network (big-endian) byte order.
    pub fn decode(buf: &[u8]) -> (h: UtpPacketHeader)
        requires
            buf@.len() >= HEADER_SIZE,
        ensures
            h == raw_header_of(buf@),
    {
        UtpPacketHeader {
            type_ver: buf[0],
            extension: buf[1],
            connection_id: get_be16(buf, 2),
            timestamp_microseconds: get_be32(buf, 4),
            timestamp_difference_microseconds: get_be32(buf, 8),
            wnd_size: get_be32(buf, 12),
            seq_nr: get_be16(buf, 16),
            ack_nr: get_be16(buf, 18),
        }
    }
}

/// A packet of the basic format: a header and a payload.
pub struct UtpPacket {
    pub header: UtpPacketHeader,
    pub payload: Vec<u8>,
}

/// The bytes of a packet on the wire: its header, then its payload.
pub open spec fn basic_packet_bytes(h: UtpPacketHeader, payload: Seq<u8>) -> Seq<u8> {
    raw_header_bytes(h) + payload
}

impl UtpPacket {
    /// Constructs a new, empty data packet.
    pub fn new() -> (p: UtpPacket)
        ensures
            p.header == new_raw_header(),
            p.payload@.len() == 0,
    {
        UtpPacket {
            header: UtpPacketHeader {
                type_ver: 1,
                extension: 0,
                connection_id: 0,
                timestamp_microseconds: 0,
                timestamp_difference_microseconds: 0,
                wnd_size: 0,
                seq_nr: 0,
                ack_nr: 0,
            },
            payload: Vec::new(),
        }
    }

    /// Sets the type of the packet.
    pub fn set_type(&mut self, t: PacketType)
        ensures
            final(self).header == (UtpPacketHeader { type_ver: with_type(old(self).header.type_ver, t), ..old(self).header }),
            final(self).payload@ == old(self).payload@,
    {
        self.header.set_type(t);
    }

    /// Returns the type of the packet.
    pub fn get_type(&self) -> (t: PacketType)
        requires
            self.header.type_ver / 16 <= 4,
        ensures
            t == type_of_number(self.header.type_ver / 16),
    {
        self.header.get_type()
    }

    /// Returns a copy of the packet whose window size is `new_wnd_size`.
    pub fn wnd_size(&self, new_wnd_size: u32) -> (p: UtpPacket)
        ensures
            p.header == (UtpPacketHeader { wnd_size: new_wnd_size, ..self.header }),
            p.payload@ == self.payload@,
    {
        UtpPacket {
            header: UtpPacketHeader { wnd_size: new_wnd_size, ..self.header },
            payload: copy_bytes(&self.payload),
        }
    }

    /// Returns the packet as bytes: the header, then the payload.
    pub fn bytes(&self) -> (b: Vec<u8>)
        ensures
            b@ == basic_packet_bytes(self.header, self.payload@),
    {
        let mut buf = self.header.bytes();
        let mut i: usize = 0;
        while i < self.payload.len()
            invariant
                i <= self.payload@.len(),
                buf@ == raw_header_bytes(self.header) + self.payload@.subrange(0, i as int),
            decreases self.payload@.len() - i,
        {
            buf.push(self.payload[i]);
            i = i + 1;
            assert(buf@ =~= raw_header_bytes(self.header) + self.payload@.subrange(0, i as int));
        }
        assert(self.payload@.subrange(0, i as int) =~= self.payload@);
        buf
    }

    /// Returns the length of the packet in bytes.
    pub fn len(&self) -> (n: usize)
        requires
            self.payload@.len() + HEADER_SIZE <= usize::MAX,
        ensures
            n == HEADER_SIZE + self.payload@.len(),
    {
        self.header.len() + self.payload.len()
    }

    /// Decodes a byte buffer into a packet: the header from the first 20 bytes, and every byte
    /// after them as payload.
    pub fn decode(buf: &[u8]) -> (p: UtpPacket)
        requires
            buf@.len() >= HEADER_SIZE,
        ensures
            p.header == raw_header_of(buf@),
            p.payload@ == buf@.subrange(HEADER_SIZE as int, buf@.len() as int),
    {
        let header = UtpPacketHeader::decode(buf);
        let mut payload: Vec<u8> = Vec::new();
        let mut i: usize = HEADER_SIZE;
        while i < buf.len()
            invariant
                HEADER_SIZE <= i <= buf@.len(),
                payload@ == buf@.subrange(HEADER_SIZE as int, i as int),
            decreases buf@.len() - i,
        {
            payload.push(buf[i]);
            i = i + 1;
            assert(payload@ =~= buf@.subrange(HEADER_SIZE as int, i as int));
        }
        UtpPacket { header, payload }
    }
}

impl Clone for UtpPacket {
    fn clone(&self) -> (p: UtpPacket)
        ensures
            p.header == self.header,
            p.payload@ == self.payload@,
    {
        UtpPacket { header: self.header, payload: copy_bytes(&self.payload) }
    }
}

/// Decoding the bytes of a header gives back that header.
pub proof fn lemma_raw_header_of_bytes(h: UtpPacketHeader)
    ensures
        raw_header_bytes(h).len() == HEADER_SIZE,
        raw_header_of(raw_header_bytes(h)) == h,
{
    lemma_be16(h.connection_id);
    lemma_be32(h.timestamp_microseconds);
    lemma_be32(h.timestamp_difference_microseconds);
    lemma_be32(h.wnd_size);
    lemma_be16(h.seq_nr);
    lemma_be16(h.ack_nr);
    let b = raw_header_bytes(h);
    assert(b.subrange(2, 4) =~= be16(h.connection_id));
    assert(b.subrange(4, 8) =~= be32(h.timestamp_microseconds));
    assert(b.subrange(8, 12) =~= be32(h.timestamp_difference_microseconds));
    assert(b.subrange(12, 16) =~= be32(h.wnd_size));
    assert(b.subrange(16, 18) =~= be16(h.seq_nr));
    assert(b.subrange(18, 20) =~= be16(h.ack_nr));
    assert(read_be16(b, 2) == read_be16(b.subrange(2, 4), 0));
    assert(read_be32(b, 4) == read_be32(b.subrange(4, 8), 0));
    assert(read_be32(b, 8) == read_be32(b.subrange(8, 12), 0));
    assert(read_be32(b, 12) == read_be32(b.subrange(12, 16), 0));
    assert(read_be16(b, 16) == read_be16(b.subrange(16, 18), 0));
    assert(read_be16(b, 18) == read_be16(b.subrange(18, 20), 0));
}

/// Encoding the header read from the first 20 bytes of `b` gives those bytes back.
pub proof fn lemma_raw_header_bytes_of(b: Seq<u8>)
    requires
        b.len() >= HEADER_SIZE,
    ensures
        raw_header_bytes(raw_header_of(b)) == b.subrange(0, HEADER_SIZE as int),
{
    lemma_read_be16(b, 2);
    lemma_read_be32(b, 4);
    lemma_read_be32(b, 8);
    lemma_read_be32(b, 12);
    lemma_read_be16(b, 16);
    lemma_read_be16(b, 18);
    assert(raw_header_bytes(raw_header_of(b)) =~= b.subrange(0, HEADER_SIZE as int));
}

/// Decoding the bytes of a packet gives back its header and payload.
pub proof fn lemma_basic_decode_bytes(h: UtpPacketHeader, payload: Seq<u8>)
    ensures
        ({
            let b = basic_packet_bytes(h, payload);
            &&& b.len() >= HEADER_SIZE
            &&& raw_header_of(b) == h
            &&& b.subrange(HEADER_SIZE as int, b.len() as int) == payload
        }),
{
    lemma_raw_header_of_bytes(h);
    let b = basic_packet_bytes(h, payload);
    let hb = raw_header_bytes(h);
    assert forall|i: int| 0 <= i < HEADER_SIZE implies b[i] == hb[i] by {}
    assert(raw_header_of(b) == raw_header_of(hb));
    assert(b.subrange(HEADER_SIZE as int, b.len() as int) =~= payload);
}

/// Encoding a packet decoded from `b` gives `b` back, whatever bytes follow the header.
pub proof fn lemma_basic_bytes_decode(b: Seq<u8>)
    requires
        b.len() >= HEADER_SIZE,
    ensures
        basic_packet_bytes(raw_header_of(b), b.subrange(HEADER_SIZE as int, b.len() as int)) == b,
{
    lemma_raw_header_bytes_of(b);
    assert(b.subrange(0, HEADER_SIZE as int) + b.subrange(HEADER_SIZE as int, b.len() as int) =~= b);
}

} // verus!

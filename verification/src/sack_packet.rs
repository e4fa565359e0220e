//! The packet format with selective acknowledgements: the basic header, a chain of extensions,
//! then the payload. Each extension is introduced by the type of the next one (0 after the last)
//! and its length.
use crate::basic_packet::{
    lemma_raw_header_bytes_of, lemma_raw_header_of_bytes, raw_header_bytes, raw_header_of,
    with_type, UtpPacketHeader,
};
use crate::packet::{copy_bytes, type_of_number, PacketType, HEADER_SIZE};
use vstd::prelude::*;
use vstd::slice::slice_to_vec;

verus! {

/// The kinds of extension this format knows.
#[derive(PartialEq, Eq, Debug, Clone, Copy, Structural)]
pub enum UtpExtensionType {
    SelectiveAckExtension,
}

/// An extension: its kind and its data.
pub struct UtpExtension {
    pub ty: UtpExtensionType,
    pub data: Vec<u8>,
}

impl UtpExtension {
    /// Returns the length of the extension without its leading type byte: the length byte and
    /// the data.
    pub fn len(&self) -> (n: usize)
        requires
            self.data@.len() + 1 <= usize::MAX,
        ensures
            n == 1 + self.data@.len(),
    {
        1 + self.data.len()
    }

    /// Returns the extension as bytes: the length of its data, in a byte, then the data.
    pub fn to_bytes(&self) -> (b: Vec<u8>)
        ensures
            b@ == seq![(self.data@.len() % 256) as u8] + self.data@,
    {
        let mut b: Vec<u8> = Vec::new();
        b.push((self.data.len() % 256) as u8);
        let mut i: usize = 0;
        while i < self.data.len()
            invariant
                i <= self.data@.len(),
                b@ == seq![(self.data@.len() % 256) as u8] + self.data@.subrange(0, i as int),
            decreases self.data@.len() - i,
        {
            b.push(self.data[i]);
            i = i + 1;
            assert(b@ =~= seq![(self.data@.len() % 256) as u8] + self.data@.subrange(0, i as int));
        }
        assert(self.data@.subrange(0, i as int) =~= self.data@);
        b
    }
}

impl Clone for UtpExtension {
    fn clone(&self) -> (e: UtpExtension)
        ensures
            e.ty == self.ty,
            e.data@ == self.data@,
    {
        UtpExtension { ty: self.ty, data: copy_bytes(&self.data) }
    }
}

/// The data of each extension, in order.
pub open spec fn ext_data(exts: Seq<UtpExtension>) -> Seq<Seq<u8>> {
    exts.map_values(|e: UtpExtension| e.data@)
}

/// The bytes of the `i`-th extension on the wire: the type of the next one (0 after the last),
/// the length of its data, and the data.
pub open spec fn ext_item_bytes(exts: Seq<UtpExtension>, i: int) -> Seq<u8> {
    seq![if i + 1 < exts.len() { 1u8 } else { 0u8 }, (exts[i].data@.len() % 256) as u8] + exts[i].data@
}

/// The bytes of the first `n` extensions on the wire.
pub open spec fn exts_bytes(exts: Seq<UtpExtension>, n: int) -> Seq<u8>
    decreases n,
{
    if n <= 0 || n > exts.len() {
        Seq::empty()
    } else {
        exts_bytes(exts, n - 1) + ext_item_bytes(exts, n - 1)
    }
}

/// The length of the first `n` extensions on the wire: two bytes each, and their data.
pub open spec fn exts_len(exts: Seq<UtpExtension>, n: int) -> nat
    decreases n,
{
    if n <= 0 || n > exts.len() {
        0
    } else {
        exts_len(exts, n - 1) + 2 + exts[n - 1].data@.len()
    }
}

/// The bytes of a packet on the wire: its header, its extensions, its payload.
pub open spec fn sack_packet_bytes(h: UtpPacketHeader, exts: Seq<UtpExtension>, payload: Seq<u8>) -> Seq<u8> {
    raw_header_bytes(h) + exts_bytes(exts, exts.len() as int) + payload
}

/// The position at which the walk over the extensions goes on after the extension at `idx`:
/// the position plus the start of the bytes that follow that extension.
pub open spec fn walk_next(b: Seq<u8>, idx: int) -> int {
    idx + (idx + 2 + b[idx + 1])
}

/// Whether the walk over the extensions from position `idx`, where an extension of kind `kind`
/// is announced, reads only bytes of `b` and computes only positions that fit in a `usize`.
pub open spec fn walk_ok(b: Seq<u8>, idx: int, kind: u8) -> bool
    decreases if idx < b.len() { b.len() - idx } else { 0int },
{
    if 0 <= idx < b.len() && kind != 0 {
        &&& idx + 1 < b.len()
        &&& kind == 1 ==> idx + 2 + b[idx + 1] <= b.len()
        &&& walk_next(b, idx) <= usize::MAX
        &&& walk_ok(b, walk_next(b, idx), b[idx])
    } else {
        true
    }
}

/// The data of the selective acknowledgements that the walk from `idx` keeps; extensions of
/// other kinds are skipped.
pub open spec fn walk_exts(b: Seq<u8>, idx: int, kind: u8) -> Seq<Seq<u8>>
    decreases if idx < b.len() { b.len() - idx } else { 0int },
{
    if 0 <= idx < b.len() && kind != 0 {
        let rest = walk_exts(b, walk_next(b, idx), b[idx]);
        if kind == 1 {
            seq![b.subrange(idx + 2, idx + 2 + b[idx + 1])] + rest
        } else {
            rest
        }
    } else {
        Seq::empty()
    }
}

/// Where the walk from `idx` stops.
pub open spec fn walk_end(b: Seq<u8>, idx: int, kind: u8) -> int
    decreases if idx < b.len() { b.len() - idx } else { 0int },
{
    if 0 <= idx < b.len() && kind != 0 {
        walk_end(b, walk_next(b, idx), b[idx])
    } else {
        idx
    }
}

/// The payload that decoding `b` keeps: the bytes from where the walk stops, if any.
pub open spec fn walk_payload(b: Seq<u8>) -> Seq<u8> {
    let end = walk_end(b, HEADER_SIZE as int, b[1]);
    if end < b.len() {
        b.subrange(end, b.len() as int)
    } else {
        Seq::empty()
    }
}

/// Tells whether decoding `buf` reads only its bytes: it holds a header, and the walk over its
/// extensions stays within it.
pub fn can_decode(buf: &[u8]) -> (b: bool)
    ensures
        b == (buf@.len() >= HEADER_SIZE && walk_ok(buf@, HEADER_SIZE as int, buf@[1])),
{
    if buf.len() < HEADER_SIZE {
        return false;
    }
    let ghost bb = buf@;
    let mut idx: usize = HEADER_SIZE;
    let mut kind: u8 = buf[1];
    while idx < buf.len() && kind != 0
        invariant
            bb == buf@,
            HEADER_SIZE <= idx,
            walk_ok(bb, idx as int, kind) == walk_ok(bb, HEADER_SIZE as int, bb[1]),
        decreases if idx < bb.len() { bb.len() - idx } else { 0int },
    {
        if idx + 1 >= buf.len() {
            return false;
        }
        let len = buf[idx + 1] as usize;
        if kind == 1 && len > buf.len() - idx - 2 {
            return false;
        }
        if idx > (usize::MAX - 2 - len) / 2 {
            return false;
        }
        let next = idx + (idx + 2 + len);
        kind = buf[idx];
        idx = next;
    }
    true
}

/// A packet with a chain of extensions.
pub struct UtpPacket {
    pub header: UtpPacketHeader,
    pub extensions: Vec<UtpExtension>,
    pub payload: Vec<u8>,
}

/// Copies a list of extensions.
fn clone_extensions(v: &Vec<UtpExtension>) -> (r: Vec<UtpExtension>)
    ensures
        r@.len() == v@.len(),
        ext_data(r@) == ext_data(v@),
{
    let mut r: Vec<UtpExtension> = Vec::new();
    let mut i: usize = 0;
    while i < v.len()
        invariant
            i <= v@.len(),
            r@.len() == i,
            forall|j: int| 0 <= j < i ==> (#[trigger] r@[j]).data@ == v@[j].data@,
        decreases v@.len() - i,
    {
        r.push(v[i].clone());
        i = i + 1;
    }
    assert(ext_data(r@) =~= ext_data(v@));
    r
}

impl UtpPacket {
    /// Constructs a new, empty data packet.
    pub fn new() -> (p: UtpPacket)
        ensures
            p.header == (UtpPacketHeader {
                type_ver: 1,
                extension: 0,
                connection_id: 0,
                timestamp_microseconds: 0,
                timestamp_difference_microseconds: 0,
                wnd_size: 0,
                seq_nr: 0,
                ack_nr: 0,
            }),
            p.extensions@.len() == 0,
            p.payload@.len() == 0,
    {
        UtpPacket {
            header: UtpPacketHeader {
                type_ver: 1,
                extension: 0,
                connection_id: 0,
                timestamp_microseconds: 0,
                timestamp_difference_microseconds: 0,
                wnd_size: 0,
                seq_nr: 0,
                ack_nr: 0,
            },
            extensions: Vec::new(),
            payload: Vec::new(),
        }
    }

    /// Sets the type of the packet.
    pub fn set_type(&mut self, t: PacketType)
        ensures
            final(self).header == (UtpPacketHeader { type_ver: with_type(old(self).header.type_ver, t), ..old(self).header }),
            final(self).extensions@ == old(self).extensions@,
            final(self).payload@ == old(self).payload@,
    {
        self.header.set_type(t);
    }

    /// Returns the type of the packet.
    pub fn get_type(&self) -> (t: PacketType)
        requires
            self.header.type_ver / 16 <= 4,
        ensures
            t == type_of_number(self.header.type_ver / 16),
    {
        self.header.get_type()
    }

    /// Returns the sequence number.
    pub fn seq_nr(&self) -> (x: u16)
        ensures
            x == self.header.seq_nr,
    {
        self.header.seq_nr
    }

    /// Returns the acknowledgement number.
    pub fn ack_nr(&self) -> (x: u16)
        ensures
            x == self.header.ack_nr,
    {
        self.header.ack_nr
    }

    /// Returns the connection identifier.
    pub fn connection_id(&self) -> (x: u16)
        ensures
            x == self.header.connection_id,
    {
        self.header.connection_id
    }

    /// Sets the window size.
    pub fn set_wnd_size(&mut self, new_wnd_size: u32)
        ensures
            final(self).header == (UtpPacketHeader { wnd_size: new_wnd_size, ..old(self).header }),
            final(self).extensions@ == old(self).extensions@,
            final(self).payload@ == old(self).payload@,
    {
        self.header.wnd_size = new_wnd_size;
    }

    /// Returns the window size.
    pub fn wnd_size(&self) -> (x: u32)
        ensures
            x == self.header.wnd_size,
    {
        self.header.wnd_size
    }

    /// Sets the selective acknowledgement of the packet. `None` disables it and drops every
    /// extension; `Some(bv)` appends a selective acknowledgement with data `bv`, whose length
    /// must be a multiple of 4 and at least 4, and marks it in the header.
    pub fn set_sack(&mut self, v: Option<Vec<u8>>)
        requires
            v matches Some(bv) ==> bv@.len() >= 4 && bv@.len() % 4 == 0,
        ensures
            v is None ==> final(self).header == (UtpPacketHeader { extension: 0, ..old(self).header })
                && final(self).extensions@.len() == 0,
            v matches Some(bv) ==> final(self).header == (UtpPacketHeader {
                extension: old(self).header.extension | 1u8,
                ..old(self).header
            }) && final(self).extensions@.len() == old(self).extensions@.len() + 1
                && final(self).extensions@.drop_last() == old(self).extensions@
                && final(self).extensions@.last().data@ == bv@,
            final(self).payload@ == old(self).payload@,
    {
        match v {
            None => {
                self.header.extension = 0;
                self.extensions = Vec::new();
            },
            Some(bv) => {
                let extension = UtpExtension { ty: UtpExtensionType::SelectiveAckExtension, data: bv };
                self.extensions.push(extension);
                self.header.extension = self.header.extension | 1u8;
                assert(self.extensions@.drop_last() =~= old(self).extensions@);
            },
        }
    }

    /// Returns the packet as bytes: the header, each extension preceded by the type of the next
    /// one, then the payload.
    pub fn bytes(&self) -> (b: Vec<u8>)
        ensures
            b@ == sack_packet_bytes(self.header, self.extensions@, self.payload@),
    {
        let mut buf = self.header.bytes();
        let n = self.extensions.len();
        let mut i: usize = 0;
        while i < n
            invariant
                n == self.extensions@.len(),
                i <= n,
                buf@ == raw_header_bytes(self.header) + exts_bytes(self.extensions@, i as int),
            decreases n - i,
        {
            // next extension id
            if i + 1 < n {
                buf.push(1u8);
            } else {
                buf.push(0u8);
            }
            let mut item = self.extensions[i].to_bytes();
            buf.append(&mut item);
            i = i + 1;
            assert(buf@ =~= raw_header_bytes(self.header) + exts_bytes(self.extensions@, i as int));
        }
        let mut j: usize = 0;
        let ghost prefix = buf@;
        while j < self.payload.len()
            invariant
                j <= self.payload@.len(),
                buf@ == prefix + self.payload@.subrange(0, j as int),
            decreases self.payload@.len() - j,
        {
            buf.push(self.payload[j]);
            j = j + 1;
            assert(buf@ =~= prefix + self.payload@.subrange(0, j as int));
        }
        assert(self.payload@.subrange(0, j as int) =~= self.payload@);
        buf
    }

    /// Returns the length of the packet in bytes.
    pub fn len(&self) -> (n: usize)
        requires
            HEADER_SIZE + self.payload@.len() + exts_len(self.extensions@, self.extensions@.len() as int)
                <= usize::MAX,
        ensures
            n == HEADER_SIZE + self.payload@.len() + exts_len(self.extensions@, self.extensions@.len() as int),
    {
        let n = self.extensions.len();
        let mut ext_len: usize = 0;
        let mut i: usize = 0;
        while i < n
            invariant
                n == self.extensions@.len(),
                i <= n,
                ext_len == exts_len(self.extensions@, i as int),
                HEADER_SIZE + self.payload@.len() + exts_len(self.extensions@, n as int) <= usize::MAX,
            decreases n - i,
        {
            proof {
                lemma_exts_len_monotone(self.extensions@, i as int + 1, n as int);
            }
            ext_len = ext_len + self.extensions[i].len() + 1;
            i = i + 1;
        }
        self.header.len() + self.payload.len() + ext_len
    }

    /// Decodes a byte buffer into a packet. The header comes from the first 20 bytes; then,
    /// while an extension is announced, its data is kept when it is a selective acknowledgement
    /// and skipped otherwise, and the walk goes on at its position plus the start of the bytes
    /// that follow the extension. Every byte from where the walk stops is payload.
    pub fn decode(buf: &[u8]) -> (p: UtpPacket)
        requires
            buf@.len() >= HEADER_SIZE,
            walk_ok(buf@, HEADER_SIZE as int, buf@[1]),
        ensures
            p.header == raw_header_of(buf@),
            ext_data(p.extensions@) == walk_exts(buf@, HEADER_SIZE as int, buf@[1]),
            p.payload@ == walk_payload(buf@),
    {
        let header = UtpPacketHeader::decode(buf);
        let ghost b = buf@;
        let mut extensions: Vec<UtpExtension> = Vec::new();
        let mut idx: usize = HEADER_SIZE;
        let mut kind: u8 = header.extension;

        // Consume known extensions and skip over unknown ones
        while idx < buf.len() && kind != 0
            invariant
                b == buf@,
                HEADER_SIZE <= idx,
                walk_ok(b, idx as int, kind),
                ext_data(extensions@) + walk_exts(b, idx as int, kind) == walk_exts(b, HEADER_SIZE as int, b[1]),
                walk_end(b, idx as int, kind) == walk_end(b, HEADER_SIZE as int, b[1]),
            decreases if idx < b.len() { b.len() - idx } else { 0int },
        {
            let len = buf[idx + 1] as usize;
            let extension_start = idx + 2;
            let payload_start = extension_start + len;
            let ghost before = ext_data(extensions@);
            if kind == 1 {
                let data = slice_to_vec(&buf[extension_start..payload_start]);
                extensions.push(UtpExtension { ty: UtpExtensionType::SelectiveAckExtension, data });
                proof {
                    assert(ext_data(extensions@) =~= before.push(b.subrange(extension_start as int, payload_start as int)));
                    assert(ext_data(extensions@) + walk_exts(b, walk_next(b, idx as int), b[idx as int]) =~= before
                        + walk_exts(b, idx as int, kind));
                }
            }
            kind = buf[idx];
            idx = idx + payload_start;
        }

        let payload = if idx < buf.len() {
            slice_to_vec(&buf[idx..buf.len()])
        } else {
            Vec::new()
        };
        proof {
            assert(ext_data(extensions@) =~= walk_exts(b, HEADER_SIZE as int, b[1]));
        }
        UtpPacket { header, extensions, payload }
    }

    /// Returns a copy of the packet without its payload.
    pub fn shallow_clone(&self) -> (p: UtpPacket)
        ensures
            p.header == self.header,
            ext_data(p.extensions@) == ext_data(self.extensions@),
            p.payload@.len() == 0,
    {
        UtpPacket { header: self.header, extensions: clone_extensions(&self.extensions), payload: Vec::new() }
    }
}

impl Clone for UtpPacket {
    fn clone(&self) -> (p: UtpPacket)
        ensures
            p.header == self.header,
            ext_data(p.extensions@) == ext_data(self.extensions@),
            p.payload@ == self.payload@,
    {
        UtpPacket {
            header: self.header,
            extensions: clone_extensions(&self.extensions),
            payload: copy_bytes(&self.payload),
        }
    }
}

/// The wire length of extensions grows with their number.
proof fn lemma_exts_len_monotone(exts: Seq<UtpExtension>, i: int, n: int)
    requires
        0 <= i <= n <= exts.len(),
    ensures
        exts_len(exts, i) <= exts_len(exts, n),
    decreases n - i,
{
    if i < n {
        lemma_exts_len_monotone(exts, i, n - 1);
    }
}

/// The length that `len` counts for the extensions is that of their bytes.
pub proof fn lemma_exts_len_bytes(exts: Seq<UtpExtension>, n: int)
    requires
        0 <= n <= exts.len(),
    ensures
        exts_bytes(exts, n).len() == exts_len(exts, n),
    decreases n,
{
    if n > 0 {
        lemma_exts_len_bytes(exts, n - 1);
    }
}

/// The length of a packet is the number of bytes it encodes to.
pub proof fn lemma_sack_len_bytes(h: UtpPacketHeader, exts: Seq<UtpExtension>, payload: Seq<u8>)
    ensures
        sack_packet_bytes(h, exts, payload).len() == HEADER_SIZE + payload.len() + exts_len(exts, exts.len() as int),
{
    lemma_exts_len_bytes(exts, exts.len() as int);
    lemma_raw_header_of_bytes(h);
}

/// Decoding the bytes of a packet that announces no extension and holds none gives back its
/// header, no extension, and its payload.
pub proof fn lemma_sack_decode_bytes(h: UtpPacketHeader, exts: Seq<UtpExtension>, payload: Seq<u8>)
    requires
        h.extension == 0,
        exts.len() == 0,
    ensures
        ({
            let b = sack_packet_bytes(h, exts, payload);
            &&& b.len() >= HEADER_SIZE
            &&& walk_ok(b, HEADER_SIZE as int, b[1])
            &&& raw_header_of(b) == h
            &&& walk_exts(b, HEADER_SIZE as int, b[1]).len() == 0
            &&& walk_payload(b) == payload
        }),
{
    lemma_raw_header_of_bytes(h);
    let b = sack_packet_bytes(h, exts, payload);
    let hb = raw_header_bytes(h);
    assert(exts_bytes(exts, 0) =~= Seq::<u8>::empty());
    assert(b =~= hb + payload);
    assert forall|i: int| 0 <= i < HEADER_SIZE implies b[i] == hb[i] by {}
    assert(raw_header_of(b) == raw_header_of(hb));
    assert(b[1] == 0);
    if HEADER_SIZE < b.len() {
        assert(b.subrange(HEADER_SIZE as int, b.len() as int) =~= payload);
    } else {
        assert(payload.len() == 0);
    }
}

/// Encoding what decoding gives from bytes that announce no extension gives those bytes back.
pub proof fn lemma_sack_bytes_decode(b: Seq<u8>, exts: Seq<UtpExtension>)
    requires
        b.len() >= HEADER_SIZE,
        b[1] == 0,
        exts.len() == 0,
    ensures
        walk_ok(b, HEADER_SIZE as int, b[1]),
        walk_exts(b, HEADER_SIZE as int, b[1]).len() == 0,
        sack_packet_bytes(raw_header_of(b), exts, walk_payload(b)) == b,
{
    lemma_raw_header_bytes_of(b);
    assert(exts_bytes(exts, 0) =~= Seq::<u8>::empty());
    if HEADER_SIZE < b.len() {
        assert(b.subrange(0, HEADER_SIZE as int) + b.subrange(HEADER_SIZE as int, b.len() as int) =~= b);
    } else {
        assert(b.subrange(0, HEADER_SIZE as int) =~= b);
    }
}

} // verus!

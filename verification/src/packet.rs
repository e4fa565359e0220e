use crate::bit_iterator::{bits_of, BitIterator};
pub use crate::error::ParseError;
use vstd::prelude::*;
use vstd::slice::slice_to_vec;

verus! {

/// Size in bytes of a packet header.
pub const HEADER_SIZE: usize = 20;

/// A trait for objects that can be represented as a vector of bytes.
pub trait Encodable {
    /// Returns a vector of bytes representing the data structure in a way that can be sent over the
    /// network.
    fn to_bytes(&self) -> Vec<u8>;
}

/// A trait for objects that can be decoded from slices of bytes.
pub trait Decodable: Sized {
    /// Decodes a slice of bytes and returns an equivalent object.
    ///
    /// If the slice of bytes represents a valid instance of the type, it returns `Ok`, containing
    /// the corresponding object; if a parse error is found, it returns `Err` with the appropriate
    /// `ParseError`.
    fn from_bytes(buf: &[u8]) -> Result<Self, ParseError>;
}

/// The kinds of packet.
#[derive(PartialEq, Eq, Debug, Clone, Copy, Structural)]
pub enum PacketType {
    Data,
    Fin,
    State,
    Reset,
    Syn,
}

/// The number that stands for a packet type on the wire.
pub open spec fn type_number(t: PacketType) -> u8 {
    match t {
        PacketType::Data => 0,
        PacketType::Fin => 1,
        PacketType::State => 2,
        PacketType::Reset => 3,
        PacketType::Syn => 4,
    }
}

/// The packet type that a number stands for; numbers above 4 are not packet types.
pub open spec fn type_of_number(n: u8) -> PacketType {
    if n == 0 {
        PacketType::Data
    } else if n == 1 {
        PacketType::Fin
    } else if n == 2 {
        PacketType::State
    } else if n == 3 {
        PacketType::Reset
    } else {
        PacketType::Syn
    }
}

pub(crate) fn packet_type_number(t: PacketType) -> (n: u8)
    ensures
        n == type_number(t),
{
    match t {
        PacketType::Data => 0,
        PacketType::Fin => 1,
        PacketType::State => 2,
        PacketType::Reset => 3,
        PacketType::Syn => 4,
    }
}

pub(crate) fn packet_type_of_number(n: u8) -> (t: PacketType)
    requires
        n <= 4,
    ensures
        t == type_of_number(n),
        type_number(t) == n,
{
    if n == 0 {
        PacketType::Data
    } else if n == 1 {
        PacketType::Fin
    } else if n == 2 {
        PacketType::State
    } else if n == 3 {
        PacketType::Reset
    } else {
        PacketType::Syn
    }
}

/// The kinds of packet extension.
#[derive(PartialEq, Eq, Debug, Clone, Copy, Structural)]
pub enum ExtensionType {
    NoExtension,
    SelectiveAck,
    Unknown(u8),
}

/// The number that stands for an extension type on the wire.
pub open spec fn extension_type_byte(t: ExtensionType) -> u8 {
    match t {
        ExtensionType::NoExtension => 0,
        ExtensionType::SelectiveAck => 1,
        ExtensionType::Unknown(n) => n,
    }
}

/// The extension type that a number stands for.
pub open spec fn extension_type_of_byte(n: u8) -> ExtensionType {
    if n == 0 {
        ExtensionType::NoExtension
    } else if n == 1 {
        ExtensionType::SelectiveAck
    } else {
        ExtensionType::Unknown(n)
    }
}

/// An extension type that can stand in a packet: it is not `None`, and the number of an unknown
/// type is not that of a known one.
pub open spec fn extension_type_ok(t: ExtensionType) -> bool {
    match t {
        ExtensionType::NoExtension => false,
        ExtensionType::SelectiveAck => true,
        ExtensionType::Unknown(n) => n >= 2,
    }
}

impl From<u8> for ExtensionType {
    fn from(v: u8) -> (t: ExtensionType) {
        if v == 0 {
            ExtensionType::NoExtension
        } else if v == 1 {
            ExtensionType::SelectiveAck
        } else {
            ExtensionType::Unknown(v)
        }
    }
}

impl vstd::std_specs::convert::FromSpecImpl<u8> for ExtensionType {
    open spec fn obeys_from_spec() -> bool {
        true
    }

    open spec fn from_spec(v: u8) -> ExtensionType {
        extension_type_of_byte(v)
    }
}

impl From<ExtensionType> for u8 {
    fn from(v: ExtensionType) -> (n: u8) {
        match v {
            ExtensionType::NoExtension => 0,
            ExtensionType::SelectiveAck => 1,
            ExtensionType::Unknown(n) => n,
        }
    }
}

impl vstd::std_specs::convert::FromSpecImpl<ExtensionType> for u8 {
    open spec fn obeys_from_spec() -> bool {
        true
    }

    open spec fn from_spec(v: ExtensionType) -> u8 {
        extension_type_byte(v)
    }
}

/// What an extension holds: its type and its bytes.
pub struct ExtensionModel {
    pub ty: ExtensionType,
    pub data: Seq<u8>,
}

/// A packet extension.
pub struct Extension {
    pub ty: ExtensionType,
    pub data: Vec<u8>,
}

impl View for Extension {
    type V = ExtensionModel;

    open spec fn view(&self) -> ExtensionModel {
        ExtensionModel { ty: self.ty, data: self.data@ }
    }
}

impl Extension {
    /// Creates an extension of the given type holding the given bytes.
    pub fn new(ty: ExtensionType, data: Vec<u8>) -> (e: Extension)
        ensures
            e@ == (ExtensionModel { ty: ty, data: data@ }),
    {
        Extension { ty, data }
    }

    /// Returns the length in bytes of the extension's data.
    pub fn len(&self) -> (n: usize)
        ensures
            n == self@.data.len(),
    {
        self.data.len()
    }

    /// Returns the extension's type.
    pub fn get_type(&self) -> (t: ExtensionType)
        ensures
            t == self@.ty,
    {
        self.ty
    }

    /// Returns an iterator over the bits of the extension's data.
    pub fn iter(&self) -> (it: BitIterator<'_>)
        requires
            self@.data.len() * 8 <= usize::MAX,
        ensures
            it.remaining() == bits_of(self@.data),
            it.bytes() == self@.data,
    {
        BitIterator::from_bytes(self.data.as_slice())
    }
}

impl Clone for Extension {
    fn clone(&self) -> (e: Extension)
        ensures
            e@ == self@,
    {
        Extension { ty: self.ty, data: copy_bytes(&self.data) }
    }
}

/// Copies a vector of bytes.
pub(crate) fn copy_bytes(v: &Vec<u8>) -> (r: Vec<u8>)
    ensures
        r@ == v@,
{
    slice_to_vec(v.as_slice())
}

/// What a packet header holds; the version of every header is 1.
pub struct HeaderModel {
    pub ty: PacketType,
    pub extension: u8,
    pub connection_id: u16,
    pub timestamp_microseconds: u32,
    pub timestamp_difference_microseconds: u32,
    pub wnd_size: u32,
    pub seq_nr: u16,
    pub ack_nr: u16,
}

/// Big-endian bytes of a 16-bit number.
pub open spec fn be16(x: u16) -> Seq<u8> {
    seq![(x / 256) as u8, (x % 256) as u8]
}

/// Big-endian bytes of a 32-bit number.
pub open spec fn be32(x: u32) -> Seq<u8> {
    seq![
        (x / 16777216) as u8,
        ((x / 65536) % 256) as u8,
        ((x / 256) % 256) as u8,
        (x % 256) as u8,
    ]
}

/// The 16-bit number whose big-endian bytes start at `i`.
pub open spec fn read_be16(b: Seq<u8>, i: int) -> u16 {
    (b[i] * 256 + b[i + 1]) as u16
}

/// The 32-bit number whose big-endian bytes start at `i`.
pub open spec fn read_be32(b: Seq<u8>, i: int) -> u32 {
    (b[i] * 16777216 + b[i + 1] * 65536 + b[i + 2] * 256 + b[i + 3]) as u32
}

/// The first byte of a header: the packet type in the high nibble, version 1 in the low one.
pub open spec fn type_ver_byte(t: PacketType) -> u8 {
    (type_number(t) * 16 + 1) as u8
}

/// The 20 bytes of a header on the wire, in network byte order.
pub open spec fn header_bytes(h: HeaderModel) -> Seq<u8> {
    seq![type_ver_byte(h.ty), h.extension] + be16(h.connection_id) + be32(
        h.timestamp_microseconds,
    ) + be32(h.timestamp_difference_microseconds) + be32(h.wnd_size) + be16(h.seq_nr) + be16(
        h.ack_nr,
    )
}

/// What decoding a header from the start of `b` gives.
pub open spec fn decode_header(b: Seq<u8>) -> Result<HeaderModel, ParseError> {
    if b.len() < HEADER_SIZE {
        Err(ParseError::InvalidPacketLength)
    } else if b[0] % 16 != 1 {
        Err(ParseError::UnsupportedVersion)
    } else if b[0] / 16 > 4 {
        Err(ParseError::InvalidPacketType(b[0] / 16))
    } else {
        Ok(
            HeaderModel {
                ty: type_of_number(b[0] / 16),
                extension: b[1],
                connection_id: read_be16(b, 2),
                timestamp_microseconds: read_be32(b, 4),
                timestamp_difference_microseconds: read_be32(b, 8),
                wnd_size: read_be32(b, 12),
                seq_nr: read_be16(b, 16),
                ack_nr: read_be16(b, 18),
            },
        )
    }
}

/// A header that `Default` gives: a data packet, version 1, every other field 0.
pub open spec fn default_header() -> HeaderModel {
    HeaderModel {
        ty: PacketType::Data,
        extension: 0,
        connection_id: 0,
        timestamp_microseconds: 0,
        timestamp_difference_microseconds: 0,
        wnd_size: 0,
        seq_nr: 0,
        ack_nr: 0,
    }
}

/// The header of a packet.
#[derive(Clone, Copy)]
pub struct PacketHeader {
    type_ver: u8,  // type: u4, ver: u4
    extension: u8,
    connection_id: u16,
    timestamp_microseconds: u32,
    timestamp_difference_microseconds: u32,
    wnd_size: u32,
    seq_nr: u16,
    ack_nr: u16,
}

impl View for PacketHeader {
    type V = HeaderModel;

    closed spec fn view(&self) -> HeaderModel {
        HeaderModel {
            ty: type_of_number(self.type_ver / 16),
            extension: self.extension,
            connection_id: self.connection_id,
            timestamp_microseconds: self.timestamp_microseconds,
            timestamp_difference_microseconds: self.timestamp_difference_microseconds,
            wnd_size: self.wnd_size,
            seq_nr: self.seq_nr,
            ack_nr: self.ack_nr,
        }
    }
}

impl PacketHeader {
    #[verifier::type_invariant]
    spec fn inv(self) -> bool {
        &&& self.type_ver / 16 <= 4
        &&& self.type_ver % 16 == 1
    }

    /// Sets the type of packet to the specified type.
    pub fn set_type(&mut self, t: PacketType)
        ensures
            final(self)@ == (HeaderModel { ty: t, ..old(self)@ }),
    {
        proof {
            use_type_invariant(&*self);
        }
        let version = self.type_ver % 16;
        self.type_ver = packet_type_number(t) * 16 + version;
    }

    /// Returns the packet's type.
    pub fn get_type(&self) -> (t: PacketType)
        ensures
            t == self@.ty,
    {
        proof {
            use_type_invariant(self);
        }
        packet_type_of_number(self.type_ver / 16)
    }

    /// Returns the packet's version.
    pub fn get_version(&self) -> (v: u8)
        ensures
            v == 1,
    {
        proof {
            use_type_invariant(self);
        }
        self.type_ver % 16
    }

    /// Returns the extension field: the type of the first extension, or 0 where there is none.
    pub fn extension(&self) -> (e: u8)
        ensures
            e == self@.extension,
    {
        self.extension
    }

    /// Returns the packet header's length.
    pub fn len(&self) -> (n: usize)
        ensures
            n == HEADER_SIZE,
    {
        HEADER_SIZE
    }

    /// Returns the packet header as bytes, in network byte order.
    pub fn as_bytes(&self) -> (b: Vec<u8>)
        ensures
            b@ == header_bytes(self@),
    {
        proof {
            use_type_invariant(self);
        }
        let mut b: Vec<u8> = Vec::new();
        b.push(self.type_ver);
        b.push(self.extension);
        push_be16(&mut b, self.connection_id);
        push_be32(&mut b, self.timestamp_microseconds);
        push_be32(&mut b, self.timestamp_difference_microseconds);
        push_be32(&mut b, self.wnd_size);
        push_be16(&mut b, self.seq_nr);
        push_be16(&mut b, self.ack_nr);
        proof {
            let t = self.type_ver;
            assert(t == (t / 16) * 16 + t % 16) by (nonlinear_arith);
            assert(type_number(type_of_number(t / 16)) == t / 16);
        }
        assert(b@ =~= header_bytes(self@));
        b
    }
}

impl Default for PacketHeader {
    fn default() -> (h: PacketHeader)
        ensures
            h@ == default_header(),
    {
        PacketHeader {
            type_ver: 1,
            extension: 0,
            connection_id: 0,
            timestamp_microseconds: 0,
            timestamp_difference_microseconds: 0,
            wnd_size: 0,
            seq_nr: 0,
            ack_nr: 0,
        }
    }
}

impl Decodable for PacketHeader {
    /// Reads a byte buffer and returns the corresponding packet header.
    /// It assumes the fields are in network (big-endian) byte order.
    fn from_bytes(buf: &[u8]) -> (r: Result<PacketHeader, ParseError>)
        ensures
            match r {
                Ok(h) => decode_header(buf@) == Ok::<HeaderModel, ParseError>(h@),
                Err(e) => decode_header(buf@) == Err::<HeaderModel, ParseError>(e),
            },
    {
        // Check length
        if buf.len() < HEADER_SIZE {
            return Err(ParseError::InvalidPacketLength);
        }
        // Check version
        if buf[0] % 16 != 1 {
            return Err(ParseError::UnsupportedVersion);
        }
        // Check packet type
        if buf[0] / 16 > 4 {
            return Err(ParseError::InvalidPacketType(buf[0] / 16));
        }
        let h = PacketHeader {
            type_ver: buf[0],
            extension: buf[1],
            connection_id: get_be16(buf, 2),
            timestamp_microseconds: get_be32(buf, 4),
            timestamp_difference_microseconds: get_be32(buf, 8),
            wnd_size: get_be32(buf, 12),
            seq_nr: get_be16(buf, 16),
            ack_nr: get_be16(buf, 18),
        };
        Ok(h)
    }
}

/// Appends the big-endian bytes of a 16-bit number.
pub(crate) fn push_be16(b: &mut Vec<u8>, x: u16)
    ensures
        final(b)@ == old(b)@ + be16(x),
{
    b.push((x / 256) as u8);
    b.push((x % 256) as u8);
    assert(final(b)@ =~= old(b)@ + be16(x));
}

/// Appends the big-endian bytes of a 32-bit number.
pub(crate) fn push_be32(b: &mut Vec<u8>, x: u32)
    ensures
        final(b)@ == old(b)@ + be32(x),
{
    b.push((x / 16777216) as u8);
    b.push(((x / 65536) % 256) as u8);
    b.push(((x / 256) % 256) as u8);
    b.push((x % 256) as u8);
    assert(final(b)@ =~= old(b)@ + be32(x));
}

/// Reads the big-endian 16-bit number starting at `i`.
pub(crate) fn get_be16(buf: &[u8], i: usize) -> (x: u16)
    requires
        i + 2 <= buf@.len(),
    ensures
        x == read_be16(buf@, i as int),
{
    (buf[i] as u16) * 256 + (buf[i + 1] as u16)
}

/// Reads the big-endian 32-bit number starting at `i`.
pub(crate) fn get_be32(buf: &[u8], i: usize) -> (x: u32)
    requires
        i + 4 <= buf@.len(),
    ensures
        x == read_be32(buf@, i as int),
{
    (buf[i] as u32) * 16777216 + (buf[i + 1] as u32) * 65536 + (buf[i + 2] as u32) * 256 + (buf[i
        + 3] as u32)
}

/// What a packet holds: its header, its extensions in order, and its payload.
pub struct PacketModel {
    pub header: HeaderModel,
    pub extensions: Seq<ExtensionModel>,
    pub payload: Seq<u8>,
}

/// An extension that can stand in a packet on the wire: a type other than `NoExtension` whose
/// number stands for it, and a non-empty data length that is a multiple of 4 and fits in a byte.
pub open spec fn extension_ok(e: ExtensionModel) -> bool {
    &&& extension_type_ok(e.ty)
    &&& 0 < e.data.len() <= 255
    &&& e.data.len() % 4 == 0
}

/// A packet that decoding gives back from its own bytes: the header's extension field names the
/// type of the first extension (or is 0 where there is none), and every extension can stand on
/// the wire.
pub open spec fn packet_wf(m: PacketModel) -> bool {
    &&& m.header.extension == (if m.extensions.len() == 0 {
        0u8
    } else {
        extension_type_byte(m.extensions[0].ty)
    })
    &&& forall|i: int| 0 <= i < m.extensions.len() ==> extension_ok(#[trigger] m.extensions[i])
}

/// The byte that precedes extension `i` on the wire: the type of the next extension, or 0 after
/// the last one.
pub open spec fn next_extension_byte(s: Seq<ExtensionModel>, i: int) -> u8 {
    if i + 1 < s.len() {
        extension_type_byte(s[i + 1].ty)
    } else {
        0
    }
}

/// The bytes of extension `i` on the wire: the next extension's type, the length, the data.
pub open spec fn encode_extension(s: Seq<ExtensionModel>, i: int) -> Seq<u8> {
    seq![next_extension_byte(s, i), (s[i].data.len() % 256) as u8] + s[i].data
}

/// The bytes of the extensions from `i` on.
pub open spec fn encode_extensions_from(s: Seq<ExtensionModel>, i: int) -> Seq<u8>
    decreases s.len() - i,
{
    if 0 <= i < s.len() {
        encode_extension(s, i) + encode_extensions_from(s, i + 1)
    } else {
        Seq::empty()
    }
}

/// The bytes of a packet on the wire: header, extensions, payload.
pub open spec fn encode_packet(m: PacketModel) -> Seq<u8> {
    header_bytes(m.header) + encode_extensions_from(m.extensions, 0) + m.payload
}

/// The number of bytes the extensions from `i` on take on the wire: two bytes each, and their
/// data.
pub open spec fn extensions_len_from(s: Seq<ExtensionModel>, i: int) -> nat
    decreases s.len() - i,
{
    if 0 <= i < s.len() {
        s[i].data.len() + 2 + extensions_len_from(s, i + 1)
    } else {
        0
    }
}

/// The length of a packet on the wire.
pub open spec fn packet_len(m: PacketModel) -> nat {
    HEADER_SIZE as nat + m.payload.len() + extensions_len_from(m.extensions, 0)
}

/// Prepends extensions to the result of decoding the rest of the list.
pub open spec fn prepend_extensions(
    pre: Seq<ExtensionModel>,
    r: Result<(Seq<ExtensionModel>, int), ParseError>,
) -> Result<(Seq<ExtensionModel>, int), ParseError> {
    match r {
        Ok((rest, end)) => Ok((pre + rest, end)),
        Err(e) => Err(e),
    }
}

/// What decoding the extension list gives, starting at `idx` with an extension of type number
/// `kind` (0 ends the list): the extensions and the index at which the payload starts.
pub open spec fn parse_extensions(b: Seq<u8>, idx: int, kind: u8) -> Result<
    (Seq<ExtensionModel>, int),
    ParseError,
>
    decreases b.len() - idx,
{
    if idx < b.len() && kind != 0 {
        if b.len() < idx + 2 {
            Err(ParseError::InvalidPacketLength)
        } else {
            let len = b[idx + 1] as int;
            if len == 0 || len % 4 != 0 || idx + 2 + len > b.len() {
                Err(ParseError::InvalidExtensionLength)
            } else {
                let ext = ExtensionModel {
                    ty: extension_type_of_byte(kind),
                    data: b.subrange(idx + 2, idx + 2 + len),
                };
                prepend_extensions(seq![ext], parse_extensions(b, idx + 2 + len, b[idx]))
            }
        }
    } else if kind != 0 {
        Err(ParseError::InvalidPacketLength)
    } else {
        Ok((Seq::empty(), idx))
    }
}

/// What decoding a packet from `b` gives.
pub open spec fn decode_packet(b: Seq<u8>) -> Result<PacketModel, ParseError> {
    match decode_header(b) {
        Err(e) => Err(e),
        Ok(h) => if b.len() == HEADER_SIZE && h.extension != 0 {
            Err(ParseError::InvalidExtensionLength)
        } else {
            match parse_extensions(b, HEADER_SIZE as int, h.extension) {
                Ok((exts, end)) => Ok(
                    PacketModel { header: h, extensions: exts, payload: b.subrange(end, b.len() as int) },
                ),
                Err(e) => Err(e),
            }
        },
    }
}

/// A uTP packet: a header, a list of extensions and a payload.
pub struct Packet {
    pub header: PacketHeader,
    pub extensions: Vec<Extension>,
    pub payload: Vec<u8>,
}

/// The models of a sequence of extensions.
pub open spec fn extension_models(v: Seq<Extension>) -> Seq<ExtensionModel> {
    v.map_values(|e: Extension| e@)
}

impl View for Packet {
    type V = PacketModel;

    open spec fn view(&self) -> PacketModel {
        PacketModel {
            header: self.header@,
            extensions: extension_models(self.extensions@),
            payload: self.payload@,
        }
    }
}

impl Packet {
    /// Constructs a new, empty packet.
    pub fn new() -> (p: Packet)
        ensures
            p@ == (PacketModel {
                header: default_header(),
                extensions: Seq::empty(),
                payload: Seq::empty(),
            }),
    {
        let p = Packet { header: PacketHeader::default(), extensions: Vec::new(), payload: Vec::new() };
        assert(p@.extensions =~= Seq::<ExtensionModel>::empty());
        p
    }

    /// Constructs a new data packet with the given payload.
    pub fn with_payload(payload: &[u8]) -> (p: Packet)
        ensures
            p@ == (PacketModel {
                header: default_header(),
                extensions: Seq::empty(),
                payload: payload@,
            }),
    {
        let mut header = PacketHeader::default();
        header.set_type(PacketType::Data);
        let p = Packet { header: header, extensions: Vec::new(), payload: slice_to_vec(payload) };
        assert(p@.extensions =~= Seq::<ExtensionModel>::empty());
        p
    }

    /// Returns a copy of the packet's header.
    pub fn header(&self) -> (h: PacketHeader)
        ensures
            h@ == self@.header,
    {
        self.header
    }

    /// Returns the packet's payload.
    pub fn payload(&self) -> (b: &[u8])
        ensures
            b@ == self@.payload,
    {
        self.payload.as_slice()
    }

    /// Returns the packet's extensions.
    pub fn extensions(&self) -> (e: &[Extension])
        ensures
            extension_models(e@) == self@.extensions,
    {
        self.extensions.as_slice()
    }

    /// Sets the type of the packet.
    pub fn set_type(&mut self, t: PacketType)
        ensures
            final(self)@ == (PacketModel {
                header: HeaderModel { ty: t, ..old(self)@.header },
                ..old(self)@
            }),
    {
        self.header.set_type(t);
    }

    /// Returns the type of the packet.
    pub fn get_type(&self) -> (t: PacketType)
        ensures
            t == self@.header.ty,
    {
        self.header.get_type()
    }

    /// Returns the sequence number.
    pub fn seq_nr(&self) -> (x: u16)
        ensures
            x == self@.header.seq_nr,
    {
        self.header.seq_nr
    }

    /// Returns the acknowledgement number.
    pub fn ack_nr(&self) -> (x: u16)
        ensures
            x == self@.header.ack_nr,
    {
        self.header.ack_nr
    }

    /// Returns the connection identifier.
    pub fn connection_id(&self) -> (x: u16)
        ensures
            x == self@.header.connection_id,
    {
        self.header.connection_id
    }

    /// Returns the advertised window size.
    pub fn wnd_size(&self) -> (x: u32)
        ensures
            x == self@.header.wnd_size,
    {
        self.header.wnd_size
    }

    /// Returns the timestamp of the packet, in microseconds.
    pub fn timestamp_microseconds(&self) -> (x: u32)
        ensures
            x == self@.header.timestamp_microseconds,
    {
        self.header.timestamp_microseconds
    }

    /// Returns the timestamp difference, in microseconds.
    pub fn timestamp_difference_microseconds(&self) -> (x: u32)
        ensures
            x == self@.header.timestamp_difference_microseconds,
    {
        self.header.timestamp_difference_microseconds
    }

    /// Sets the sequence number.
    pub fn set_seq_nr(&mut self, new: u16)
        ensures
            final(self)@ == (PacketModel {
                header: HeaderModel { seq_nr: new, ..old(self)@.header },
                ..old(self)@
            }),
    {
        proof {
            use_type_invariant(&self.header);
        }
        self.header.seq_nr = new;
    }

    /// Sets the acknowledgement number.
    pub fn set_ack_nr(&mut self, new: u16)
        ensures
            final(self)@ == (PacketModel {
                header: HeaderModel { ack_nr: new, ..old(self)@.header },
                ..old(self)@
            }),
    {
        proof {
            use_type_invariant(&self.header);
        }
        self.header.ack_nr = new;
    }

    /// Sets the connection identifier.
    pub fn set_connection_id(&mut self, new: u16)
        ensures
            final(self)@ == (PacketModel {
                header: HeaderModel { connection_id: new, ..old(self)@.header },
                ..old(self)@
            }),
    {
        proof {
            use_type_invariant(&self.header);
        }
        self.header.connection_id = new;
    }

    /// Sets the advertised window size.
    pub fn set_wnd_size(&mut self, new: u32)
        ensures
            final(self)@ == (PacketModel {
                header: HeaderModel { wnd_size: new, ..old(self)@.header },
                ..old(self)@
            }),
    {
        proof {
            use_type_invariant(&self.header);
        }
        self.header.wnd_size = new;
    }

    /// Sets the timestamp, in microseconds.
    pub fn set_timestamp_microseconds(&mut self, new: u32)
        ensures
            final(self)@ == (PacketModel {
                header: HeaderModel { timestamp_microseconds: new, ..old(self)@.header },
                ..old(self)@
            }),
    {
        proof {
            use_type_invariant(&self.header);
        }
        self.header.timestamp_microseconds = new;
    }

    /// Sets the timestamp difference, in microseconds.
    pub fn set_timestamp_difference_microseconds(&mut self, new: u32)
        ensures
            final(self)@ == (PacketModel {
                header: HeaderModel { timestamp_difference_microseconds: new, ..old(self)@.header },
                ..old(self)@
            }),
    {
        proof {
            use_type_invariant(&self.header);
        }
        self.header.timestamp_difference_microseconds = new;
    }

    /// Sets Selective ACK field in packet header and adds appropriate data.
    ///
    /// The length of the SACK extension is expressed in bytes, which
    /// must be a multiple of 4 and at least 4.
    pub fn set_sack(&mut self, bv: Vec<u8>)
        requires
            bv@.len() >= 4,
            bv@.len() % 4 == 0,
        ensures
            final(self)@ == (PacketModel {
                header: HeaderModel { extension: old(self)@.header.extension | 1u8, ..old(self)@.header },
                extensions: old(self)@.extensions.push(ExtensionModel { ty: ExtensionType::SelectiveAck, data: bv@ }),
                ..old(self)@
            }),
    {
        let extension = Extension { ty: ExtensionType::SelectiveAck, data: bv };
        self.extensions.push(extension);
        proof {
            use_type_invariant(&self.header);
        }
        self.header.extension = self.header.extension | 1u8;
        assert(extension_models(self.extensions@) =~= extension_models(old(self).extensions@).push(
            extension@,
        ));
    }

    /// Returns the length of the packet on the wire, in bytes.
    pub fn len(&self) -> (n: usize)
        requires
            packet_len(self@) <= usize::MAX,
        ensures
            n == packet_len(self@),
    {
        let ghost exts = self@.extensions;
        let mut ext_len: usize = 0;
        let mut i: usize = 0;
        while i < self.extensions.len()
            invariant
                i <= self.extensions@.len(),
                exts == extension_models(self.extensions@),
                ext_len + extensions_len_from(exts, i as int) == extensions_len_from(exts, 0),
                packet_len(self@) <= usize::MAX,
                self@.extensions == exts,
            decreases self.extensions@.len() - i,
        {
            ext_len = ext_len + self.extensions[i].data.len() + 2;
            i = i + 1;
        }
        HEADER_SIZE + self.payload.len() + ext_len
    }
}

impl Encodable for Packet {
    /// Returns the packet's bytes on the wire: header, extensions, payload.
    fn to_bytes(&self) -> (buf: Vec<u8>)
        ensures
            buf@ == encode_packet(self@),
    {
        let ghost exts = self@.extensions;
        let mut buf = self.header.as_bytes();
        let mut i: usize = 0;
        // Extensions are a linked list in which each entry contains:
        // - a byte with the type of the next extension or 0 to end the list,
        // - a byte with the length in bytes of this extension,
        // - the content of this extension.
        while i < self.extensions.len()
            invariant
                i <= self.extensions@.len(),
                exts == extension_models(self.extensions@),
                buf@ + encode_extensions_from(exts, i as int) == header_bytes(self@.header)
                    + encode_extensions_from(exts, 0),
            decreases self.extensions@.len() - i,
        {
            let next: u8 = if i + 1 < self.extensions.len() {
                u8::from(self.extensions[i + 1].ty)
            } else {
                0
            };
            let ghost before = buf@;
            buf.push(next);
            buf.push((self.extensions[i].data.len() % 256) as u8);
            let mut data = copy_bytes(&self.extensions[i].data);
            buf.append(&mut data);
            proof {
                assert(buf@ =~= before + encode_extension(exts, i as int));
                assert(encode_extensions_from(exts, i as int) == encode_extension(exts, i as int)
                    + encode_extensions_from(exts, i + 1));
                assert(buf@ + encode_extensions_from(exts, i + 1) =~= before
                    + encode_extensions_from(exts, i as int));
            }
            i = i + 1;
        }
        let mut payload = copy_bytes(&self.payload);
        buf.append(&mut payload);
        assert(encode_extensions_from(exts, i as int) =~= Seq::<u8>::empty());
        assert(buf@ =~= encode_packet(self@));
        buf
    }
}

impl Decodable for Packet {
    /// Decodes a byte slice and construct the equivalent Packet.
    ///
    /// Note that this method makes no attempt to guess the payload size, saving
    /// all except the initial 20 bytes corresponding to the header as payload.
    /// It's the caller's responsibility to use an appropriately sized buffer.
    fn from_bytes(buf: &[u8]) -> (r: Result<Packet, ParseError>)
        ensures
            match r {
                Ok(p) => decode_packet(buf@) == Ok::<PacketModel, ParseError>(p@),
                Err(e) => decode_packet(buf@) == Err::<PacketModel, ParseError>(e),
            },
    {
        let header = match PacketHeader::from_bytes(buf) {
            Ok(h) => h,
            Err(e) => return Err(e),
        };
        let ghost b = buf@;
        let mut extensions: Vec<Extension> = Vec::new();
        let mut idx: usize = HEADER_SIZE;
        let mut kind: u8 = header.extension;

        if buf.len() == HEADER_SIZE && header.extension != 0 {
            return Err(ParseError::InvalidExtensionLength);
        }

        // Consume known extensions and skip over unknown ones
        while idx < buf.len() && kind != 0
            invariant
                HEADER_SIZE <= idx <= b.len(),
                b == buf@,
                decode_header(b) == Ok::<HeaderModel, ParseError>(header@),
                parse_extensions(b, HEADER_SIZE as int, header@.extension) == prepend_extensions(
                    extension_models(extensions@),
                    parse_extensions(b, idx as int, kind),
                ),
            decreases b.len() - idx,
        {
            if buf.len() - idx < 2 {
                return Err(ParseError::InvalidPacketLength);
            }
            let len = buf[idx + 1] as usize;
            let extension_start = idx + 2;

            // Check validity of extension length:
            // - non-zero,
            // - multiple of 4,
            // - does not exceed packet length
            if len == 0 || len % 4 != 0 || len > buf.len() - extension_start {
                return Err(ParseError::InvalidExtensionLength);
            }
            let payload_start = extension_start + len;

            let extension = Extension {
                ty: ExtensionType::from(kind),
                data: slice_to_vec(&buf[extension_start..payload_start]),
            };
            let ghost pre = extension_models(extensions@);
            let ghost rest = parse_extensions(b, payload_start as int, buf[idx as int]);
            proof {
                assert(parse_extensions(b, idx as int, kind) == prepend_extensions(
                    seq![extension@],
                    rest,
                ));
            }
            extensions.push(extension);
            proof {
                assert(extension_models(extensions@) =~= pre + seq![extension@]);
                match rest {
                    Ok((r, end)) => {
                        assert(pre + (seq![extension@] + r) =~= (pre + seq![extension@]) + r);
                    },
                    Err(_) => {},
                }
            }

            kind = buf[idx];
            idx = payload_start;
        }
        // Check for pending extensions (early exit of previous loop)
        if kind != 0 {
            return Err(ParseError::InvalidPacketLength);
        }
        let payload = slice_to_vec(&buf[idx..buf.len()]);
        let p = Packet { header: header, extensions: extensions, payload: payload };
        proof {
            assert(extension_models(extensions@) + Seq::<ExtensionModel>::empty() =~= extension_models(
                extensions@,
            ));
        }
        Ok(p)
    }
}

impl Clone for Packet {
    fn clone(&self) -> (p: Packet)
        ensures
            p@ == self@,
    {
        let mut extensions: Vec<Extension> = Vec::new();
        let mut i: usize = 0;
        while i < self.extensions.len()
            invariant
                i <= self.extensions@.len(),
                extension_models(extensions@) == extension_models(self.extensions@).subrange(
                    0,
                    i as int,
                ),
            decreases self.extensions@.len() - i,
        {
            let e = self.extensions[i].clone();
            assert(e@ == self.extensions@[i as int]@);
            let ghost pre = extension_models(extensions@);
            extensions.push(e);
            assert(extension_models(extensions@) =~= pre.push(self.extensions@[i as int]@));
            assert(extension_models(extensions@) =~= extension_models(self.extensions@).subrange(
                0,
                i + 1,
            ));
            i = i + 1;
        }
        let p = Packet { header: self.header, extensions: extensions, payload: copy_bytes(&self.payload) };
        assert(p@.extensions =~= self@.extensions);
        p
    }
}

} // verus!

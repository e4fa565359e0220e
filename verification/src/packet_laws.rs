//! What holds of the packet format as a whole: decoding gives back what encoding wrote, and
//! encoding gives back the bytes that decoding read.
use crate::error::ParseError;
use crate::packet::{
    be16, be32, decode_header, decode_packet, encode_extension, encode_extensions_from,
    encode_packet, extension_ok, extension_type_byte, extension_type_of_byte, extension_type_ok,
    extensions_len_from, header_bytes, next_extension_byte, packet_len, packet_wf, parse_extensions,
    read_be16, read_be32, type_number, type_of_number, type_ver_byte, ExtensionModel, ExtensionType,
    HeaderModel, PacketModel, PacketType, HEADER_SIZE,
};
use vstd::prelude::*;

verus! {

pub(crate) proof fn lemma_be16(x: u16)
    ensures
        be16(x).len() == 2,
        read_be16(be16(x), 0) == x,
{
    let hi = x / 256;
    let lo = x % 256;
    assert(hi < 256 && hi * 256 + lo == x) by (nonlinear_arith)
        requires
            hi == x / 256,
            lo == x % 256,
            x < 65536,
    ;
}

pub(crate) proof fn lemma_be32(x: u32)
    ensures
        be32(x).len() == 4,
        read_be32(be32(x), 0) == x,
{
    let b0 = x / 16777216;
    let b1 = (x / 65536) % 256;
    let b2 = (x / 256) % 256;
    let b3 = x % 256;
    assert(b0 < 256 && b0 * 16777216 + b1 * 65536 + b2 * 256 + b3 == x) by (nonlinear_arith)
        requires
            b0 == x / 16777216,
            b1 == (x / 65536) % 256,
            b2 == (x / 256) % 256,
            b3 == x % 256,
            x < 4294967296,
    ;
}

pub(crate) proof fn lemma_read_be16(b: Seq<u8>, i: int)
    requires
        0 <= i,
        i + 2 <= b.len(),
    ensures
        be16(read_be16(b, i)) == b.subrange(i, i + 2),
{
    let x = read_be16(b, i);
    let h = b[i];
    let l = b[i + 1];
    assert(x / 256 == h && x % 256 == l) by (nonlinear_arith)
        requires
            x == h * 256 + l,
            h < 256,
            l < 256,
    ;
    assert(be16(x) =~= b.subrange(i, i + 2));
}

pub(crate) proof fn lemma_read_be32(b: Seq<u8>, i: int)
    requires
        0 <= i,
        i + 4 <= b.len(),
    ensures
        be32(read_be32(b, i)) == b.subrange(i, i + 4),
{
    let x = read_be32(b, i);
    let b0 = b[i];
    let b1 = b[i + 1];
    let b2 = b[i + 2];
    let b3 = b[i + 3];
    assert(x / 16777216 == b0 && (x / 65536) % 256 == b1 && (x / 256) % 256 == b2 && x % 256
        == b3) by (nonlinear_arith)
        requires
            x == b0 * 16777216 + b1 * 65536 + b2 * 256 + b3,
            b0 < 256,
            b1 < 256,
            b2 < 256,
            b3 < 256,
    ;
    assert(be32(x) =~= b.subrange(i, i + 4));
}

proof fn lemma_type_ver(t: PacketType)
    ensures
        type_ver_byte(t) % 16 == 1,
        type_ver_byte(t) / 16 == type_number(t),
        type_number(t) <= 4,
        type_of_number(type_number(t)) == t,
{
}

/// Decoding a header from its own bytes, whatever follows them, gives it back.
pub proof fn lemma_decode_header_bytes(h: HeaderModel, rest: Seq<u8>)
    ensures
        header_bytes(h).len() == HEADER_SIZE,
        decode_header(header_bytes(h) + rest) == Ok::<HeaderModel, ParseError>(h),
{
    lemma_type_ver(h.ty);
    lemma_be16(h.connection_id);
    lemma_be32(h.timestamp_microseconds);
    lemma_be32(h.timestamp_difference_microseconds);
    lemma_be32(h.wnd_size);
    lemma_be16(h.seq_nr);
    lemma_be16(h.ack_nr);
    let b = header_bytes(h) + rest;
    assert(b.subrange(2, 4) =~= be16(h.connection_id));
    assert(b.subrange(4, 8) =~= be32(h.timestamp_microseconds));
    assert(b.subrange(8, 12) =~= be32(h.timestamp_difference_microseconds));
    assert(b.subrange(12, 16) =~= be32(h.wnd_size));
    assert(b.subrange(16, 18) =~= be16(h.seq_nr));
    assert(b.subrange(18, 20) =~= be16(h.ack_nr));
    assert(read_be16(b, 2) == read_be16(b.subrange(2, 4), 0));
    assert(read_be32(b, 4) == read_be32(b.subrange(4, 8), 0));
    assert(read_be32(b, 8) == read_be32(b.subrange(8, 12), 0));
    assert(read_be32(b, 12) == read_be32(b.subrange(12, 16), 0));
    assert(read_be16(b, 16) == read_be16(b.subrange(16, 18), 0));
    assert(read_be16(b, 18) == read_be16(b.subrange(18, 20), 0));
}

/// Encoding a decoded header gives back the first 20 bytes it was read from.
pub proof fn lemma_header_bytes_of_decoded(b: Seq<u8>)
    requires
        decode_header(b) is Ok,
    ensures
        header_bytes(decode_header(b)->Ok_0) == b.subrange(0, HEADER_SIZE as int),
{
    let h = decode_header(b)->Ok_0;
    let t = b[0];
    assert(t == (t / 16) * 16 + t % 16) by (nonlinear_arith);
    assert(type_number(type_of_number(t / 16)) == t / 16);
    lemma_read_be16(b, 2);
    lemma_read_be32(b, 4);
    lemma_read_be32(b, 8);
    lemma_read_be32(b, 12);
    lemma_read_be16(b, 16);
    lemma_read_be16(b, 18);
    assert(header_bytes(h) =~= b.subrange(0, HEADER_SIZE as int));
}

proof fn lemma_extension_type_roundtrip(t: ExtensionType)
    requires
        extension_type_ok(t),
    ensures
        extension_type_of_byte(extension_type_byte(t)) == t,
        extension_type_byte(t) != 0,
{
}

proof fn lemma_extension_byte_roundtrip(n: u8)
    ensures
        extension_type_byte(extension_type_of_byte(n)) == n,
        n != 0 ==> extension_type_ok(extension_type_of_byte(n)),
{
}

/// The extensions from `j` on take as many bytes on the wire as their encoding has.
proof fn lemma_encode_extensions_len(s: Seq<ExtensionModel>, j: int)
    requires
        0 <= j <= s.len(),
    ensures
        encode_extensions_from(s, j).len() == extensions_len_from(s, j),
    decreases s.len() - j,
{
    if j < s.len() {
        lemma_encode_extensions_len(s, j + 1);
    }
}

/// Decoding the encoding of the extensions from `j` on gives them back, and the index at which
/// the bytes that follow them start.
proof fn lemma_parse_encoded_extensions(
    s: Seq<ExtensionModel>,
    j: int,
    b: Seq<u8>,
    off: int,
    rest: Seq<u8>,
)
    requires
        0 <= j <= s.len(),
        0 <= off <= b.len(),
        forall|i: int| 0 <= i < s.len() ==> extension_ok(#[trigger] s[i]),
        b.subrange(off, b.len() as int) == encode_extensions_from(s, j) + rest,
    ensures
        parse_extensions(
            b,
            off,
            if j < s.len() {
                extension_type_byte(s[j].ty)
            } else {
                0
            },
        ) == Ok::<(Seq<ExtensionModel>, int), ParseError>(
            (s.subrange(j, s.len() as int), b.len() - rest.len()),
        ),
    decreases s.len() - j,
{
    let suffix = b.subrange(off, b.len() as int);
    if j < s.len() {
        let e = s[j];
        assert(extension_ok(e));
        lemma_extension_type_roundtrip(e.ty);
        let len = e.data.len() as int;
        assert(encode_extensions_from(s, j) == encode_extension(s, j) + encode_extensions_from(
            s,
            j + 1,
        ));
        assert(suffix == encode_extension(s, j) + encode_extensions_from(s, j + 1) + rest);
        assert(suffix.len() >= 2 + len);
        assert(b[off] == suffix[0]);
        assert(b[off + 1] == suffix[1]);
        assert(suffix[1] == (len % 256) as u8);
        assert(b[off + 1] as int == len);
        assert(b.subrange(off + 2, off + 2 + len) =~= e.data) by {
            assert forall|k: int| 0 <= k < len implies b.subrange(off + 2, off + 2 + len)[k]
                == e.data[k] by {
                assert(b[off + 2 + k] == suffix[2 + k]);
            }
        }
        assert(b.subrange(off + 2 + len, b.len() as int) =~= encode_extensions_from(s, j + 1)
            + rest) by {
            assert(suffix.subrange(2 + len, suffix.len() as int) =~= encode_extensions_from(
                s,
                j + 1,
            ) + rest);
        }
        lemma_parse_encoded_extensions(s, j + 1, b, off + 2 + len, rest);
        assert(b[off] == next_extension_byte(s, j));
        assert(seq![e] + s.subrange(j + 1, s.len() as int) =~= s.subrange(j, s.len() as int));
    } else {
        assert(encode_extensions_from(s, j) =~= Seq::<u8>::empty());
        assert(s.subrange(j, s.len() as int) =~= Seq::<ExtensionModel>::empty());
    }
}

/// Decoding the bytes of a packet that can stand on the wire gives the packet back.
pub proof fn lemma_decode_encode(m: PacketModel)
    requires
        packet_wf(m),
    ensures
        decode_packet(encode_packet(m)) == Ok::<PacketModel, ParseError>(m),
{
    let hb = header_bytes(m.header);
    let eb = encode_extensions_from(m.extensions, 0);
    let b = encode_packet(m);
    lemma_decode_header_bytes(m.header, eb + m.payload);
    assert(b =~= hb + (eb + m.payload));
    assert(b.subrange(HEADER_SIZE as int, b.len() as int) =~= eb + m.payload);
    lemma_parse_encoded_extensions(m.extensions, 0, b, HEADER_SIZE as int, m.payload);
    assert(m.extensions.subrange(0, m.extensions.len() as int) =~= m.extensions);
    if m.extensions.len() > 0 {
        assert(extension_ok(m.extensions[0]));
        assert(eb.len() >= 2);
    }
    assert(b.subrange(b.len() - m.payload.len(), b.len() as int) =~= m.payload);
}

/// What a successful decoding of the extension list starting at `idx` holds.
proof fn lemma_parsed_extensions(b: Seq<u8>, idx: int, kind: u8)
    requires
        0 <= idx <= b.len(),
        parse_extensions(b, idx, kind) is Ok,
    ensures
        ({
            let (exts, end) = parse_extensions(b, idx, kind)->Ok_0;
            &&& idx <= end <= b.len()
            &&& b.subrange(idx, end) == encode_extensions_from(exts, 0)
            &&& (exts.len() == 0 <==> kind == 0)
            &&& exts.len() > 0 ==> exts[0].ty == extension_type_of_byte(kind)
            &&& forall|i: int| 0 <= i < exts.len() ==> extension_ok(#[trigger] exts[i])
        }),
    decreases b.len() - idx,
{
    if idx < b.len() && kind != 0 {
        let len = b[idx + 1] as int;
        let next = idx + 2 + len;
        let e = ExtensionModel {
            ty: extension_type_of_byte(kind),
            data: b.subrange(idx + 2, next),
        };
        lemma_parsed_extensions(b, next, b[idx]);
        let (rest, end) = parse_extensions(b, next, b[idx])->Ok_0;
        let exts = seq![e] + rest;
        assert(parse_extensions(b, idx, kind)->Ok_0 == (exts, end));
        lemma_extension_byte_roundtrip(kind);
        lemma_extension_byte_roundtrip(b[idx]);
        lemma_shift_encode_extensions(e, rest, 0);
        assert(encode_extensions_from(exts, 0) == encode_extension(exts, 0)
            + encode_extensions_from(exts, 1));
        assert(next_extension_byte(exts, 0) == b[idx]);
        assert(encode_extension(exts, 0) =~= b.subrange(idx, next));
        assert(b.subrange(idx, end) =~= b.subrange(idx, next) + b.subrange(next, end));
        assert forall|i: int| 0 <= i < exts.len() implies extension_ok(#[trigger] exts[i]) by {
            if i > 0 {
                assert(exts[i] == rest[i - 1]);
            }
        }
    } else {
        assert(b.subrange(idx, idx) =~= Seq::<u8>::empty());
    }
}

/// Encoding the extensions of `[e] + rest` from `i + 1` on is encoding `rest` from `i` on.
proof fn lemma_shift_encode_extensions(e: ExtensionModel, rest: Seq<ExtensionModel>, i: int)
    requires
        0 <= i,
    ensures
        encode_extensions_from(seq![e] + rest, i + 1) == encode_extensions_from(rest, i),
    decreases rest.len() - i,
{
    let s = seq![e] + rest;
    if i < rest.len() {
        lemma_shift_encode_extensions(e, rest, i + 1);
        assert(s[i + 1] == rest[i]);
        if i + 1 < rest.len() {
            assert(s[i + 2] == rest[i + 1]);
        }
        assert(encode_extension(s, i + 1) =~= encode_extension(rest, i));
    }
}

/// Encoding a decoded packet gives back the bytes it was decoded from, and a decoded packet can
/// stand on the wire.
pub proof fn lemma_encode_decode(b: Seq<u8>)
    requires
        decode_packet(b) is Ok,
    ensures
        encode_packet(decode_packet(b)->Ok_0) == b,
        packet_wf(decode_packet(b)->Ok_0),
{
    let h = decode_header(b)->Ok_0;
    let m = decode_packet(b)->Ok_0;
    lemma_header_bytes_of_decoded(b);
    lemma_parsed_extensions(b, HEADER_SIZE as int, h.extension);
    let (exts, end) = parse_extensions(b, HEADER_SIZE as int, h.extension)->Ok_0;
    lemma_extension_byte_roundtrip(h.extension);
    assert(b =~= b.subrange(0, HEADER_SIZE as int) + b.subrange(HEADER_SIZE as int, end)
        + b.subrange(end, b.len() as int));
}

/// Encoding a packet takes as many bytes as its length says.
pub proof fn lemma_encoded_len(m: PacketModel)
    ensures
        encode_packet(m).len() == packet_len(m),
{
    lemma_decode_header_bytes(m.header, Seq::empty());
    lemma_encode_extensions_len(m.extensions, 0);
}

/// A buffer shorter than a header, of a version other than 1, or of a type number above 4, is
/// refused; a well-formed header followed by no extension decodes, with everything after the
/// header as payload, and encodes back to the same bytes.
pub proof fn lemma_decode_header_checks(b: Seq<u8>)
    ensures
        b.len() < HEADER_SIZE ==> decode_packet(b) == Err::<PacketModel, ParseError>(
            ParseError::InvalidPacketLength,
        ),
        b.len() >= HEADER_SIZE && b[0] % 16 != 1 ==> decode_packet(b) is Err,
        b.len() >= HEADER_SIZE && b[0] / 16 > 4 ==> decode_packet(b) is Err,
        b.len() >= HEADER_SIZE && b[0] % 16 == 1 && b[0] / 16 <= 4 && b[1] == 0 ==> {
            &&& decode_packet(b) is Ok
            &&& decode_packet(b)->Ok_0.extensions.len() == 0
            &&& decode_packet(b)->Ok_0.payload == b.subrange(HEADER_SIZE as int, b.len() as int)
            &&& encode_packet(decode_packet(b)->Ok_0) == b
        },
{
    if b.len() >= HEADER_SIZE && b[0] % 16 == 1 && b[0] / 16 <= 4 && b[1] == 0 {
        lemma_encode_decode(b);
    }
}

/// The extension as decoding reads it back: its type is the one its number stands for.
pub open spec fn read_back_extension(e: ExtensionModel) -> ExtensionModel {
    ExtensionModel { ty: extension_type_of_byte(extension_type_byte(e.ty)), data: e.data }
}

/// A packet whose extensions carry any nonzero type number, with the header's extension field
/// naming the first one: what can be encoded, whether or not decoding gives the same types.
pub open spec fn packet_codes_wf(m: PacketModel) -> bool {
    &&& m.header.extension == (if m.extensions.len() == 0 {
        0u8
    } else {
        extension_type_byte(m.extensions[0].ty)
    })
    &&& forall|i: int| 0 <= i < m.extensions.len() ==> {
        &&& extension_type_byte((#[trigger] m.extensions[i]).ty) != 0
        &&& 0 < m.extensions[i].data.len() <= 255
        &&& m.extensions[i].data.len() % 4 == 0
    }
}

proof fn lemma_encode_extensions_read_back(s: Seq<ExtensionModel>, i: int)
    requires
        0 <= i <= s.len(),
    ensures
        encode_extensions_from(s.map_values(|e: ExtensionModel| read_back_extension(e)), i)
            == encode_extensions_from(s, i),
    decreases s.len() - i,
{
    let t = s.map_values(|e: ExtensionModel| read_back_extension(e));
    if i < s.len() {
        lemma_encode_extensions_read_back(s, i + 1);
        if i + 1 < s.len() {
            assert(extension_type_byte(t[i + 1].ty) == extension_type_byte(s[i + 1].ty));
        }
        assert(encode_extension(t, i) =~= encode_extension(s, i));
    }
}

/// Every packet whose extensions carry nonzero type numbers round-trips up to the names of the
/// types: decoding its bytes gives back its header, its payload, and its extensions with the
/// same type numbers and data, each type being the one its number stands for (an unknown type
/// numbered 1 comes back as `SelectiveAck`).
pub proof fn lemma_decode_encode_codes(m: PacketModel)
    requires
        packet_codes_wf(m),
    ensures
        decode_packet(encode_packet(m)) == Ok::<PacketModel, ParseError>(
            PacketModel {
                extensions: m.extensions.map_values(|e: ExtensionModel| read_back_extension(e)),
                ..m
            },
        ),
{
    let n = PacketModel {
        extensions: m.extensions.map_values(|e: ExtensionModel| read_back_extension(e)),
        ..m
    };
    lemma_encode_extensions_read_back(m.extensions, 0);
    assert(encode_packet(n) =~= encode_packet(m));
    assert forall|i: int| 0 <= i < n.extensions.len() implies extension_ok(#[trigger] n.extensions[i]) by {
        assert(extension_type_byte(m.extensions[i].ty) != 0);
    }
    lemma_decode_encode(n);
}

} // verus!

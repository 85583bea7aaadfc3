//! The on-wire packet codec: a fixed 20-byte header, a chain of typed
//! extensions, and a payload, all in network byte order. Encoding and
//! decoding are verified to round-trip exactly.

use vstd::prelude::*;

verus! {

/// Number of bytes in the fixed packet header.
pub const HEADER_SIZE: usize = 20;

/// Wire protocol version, carried in the low nibble of the first byte.
pub const VERSION: u8 = 1;

/// Extension type tag of the selective-acknowledgment bitmap.
pub const SELECTIVE_ACK_TYPE: u8 = 1;

/// The five packet types of the protocol, encoded in the upper nibble of the
/// first header byte as Data=0, Fin=1, State=2, Reset=3, Syn=4.
#[derive(Clone, Copy, PartialEq, Eq, Structural, Debug)]
pub enum PacketType {
    Data,
    Fin,
    State,
    Reset,
    Syn,
}

/// Classification of an extension record by its type tag.
#[derive(Clone, Copy, PartialEq, Eq, Structural, Debug)]
pub enum ExtensionType {
    SelectiveAck,
    Unknown,
}

/// Wire encoding of a packet type as the upper nibble value.
pub open spec fn spec_type_code(t: PacketType) -> u8 {
    match t {
        PacketType::Data => 0,
        PacketType::Fin => 1,
        PacketType::State => 2,
        PacketType::Reset => 3,
        PacketType::Syn => 4,
    }
}

/// The packet type a given upper-nibble value stands for (meaningful for
/// values up to 4 only).
pub open spec fn spec_type_of_code(c: u8) -> PacketType {
    if c == 0 {
        PacketType::Data
    } else if c == 1 {
        PacketType::Fin
    } else if c == 2 {
        PacketType::State
    } else if c == 3 {
        PacketType::Reset
    } else {
        PacketType::Syn
    }
}

impl PacketType {
    /// The upper-nibble code this type is written as.
    pub fn code(self) -> (r: u8)
        ensures
            r == spec_type_code(self),
    {
        match self {
            PacketType::Data => 0,
            PacketType::Fin => 1,
            PacketType::State => 2,
            PacketType::Reset => 3,
            PacketType::Syn => 4,
        }
    }

    /// Reads a type back from its upper-nibble code.
    pub fn from_code(c: u8) -> (r: Option<PacketType>)
        ensures
            r is Some <==> c <= 4,
            r matches Some(t) ==> t == spec_type_of_code(c),
    {
        match c {
            0 => Some(PacketType::Data),
            1 => Some(PacketType::Fin),
            2 => Some(PacketType::State),
            3 => Some(PacketType::Reset),
            4 => Some(PacketType::Syn),
            _ => None,
        }
    }
}

/// One extension record: a type tag and its raw bytes. The selective-ack
/// bitmap travels in an extension with tag [`SELECTIVE_ACK_TYPE`].
#[derive(Clone, Debug)]
pub struct Extension {
    pub ty: u8,
    pub data: Vec<u8>,
}

impl View for Extension {
    type V = (u8, Seq<u8>);

    open spec fn view(&self) -> (u8, Seq<u8>) {
        (self.ty, self.data@)
    }
}

impl Extension {
    /// Classifies this extension by its type tag.
    pub fn get_type(&self) -> (r: ExtensionType)
        ensures
            r == ExtensionType::SelectiveAck <==> self.ty == SELECTIVE_ACK_TYPE,
    {
        if self.ty == SELECTIVE_ACK_TYPE {
            ExtensionType::SelectiveAck
        } else {
            ExtensionType::Unknown
        }
    }

    /// Number of bits carried by this extension's data.
    pub fn bit_count(&self) -> (r: usize)
        requires
            self.data@.len() * 8 <= usize::MAX,
        ensures
            r == self.data@.len() * 8,
    {
        self.data.len() * 8
    }

    /// Reads bit `i` of the data, in little-endian bit order within each
    /// byte: bit 0 is the least significant bit of the first byte.
    pub fn bit_at(&self, i: usize) -> (r: bool)
        requires
            i < self.data@.len() * 8,
        ensures
            r == spec_bit(self.data@, i as int),
    {
        let byte: u8 = self.data[i / 8];
        let bit: usize = i % 8;
        let mask: u8 = bit_mask(bit as u8);
        (byte & mask) != 0
    }
}

/// Whether bit `i` of a little-endian bitmap is set.
pub open spec fn spec_bit(data: Seq<u8>, i: int) -> bool {
    0 <= i < data.len() * 8 && (data[i / 8] >> ((i % 8) as u8)) & 1 == 1
}

/// The byte with exactly bit `b` set (for `b < 8`).
fn bit_mask(b: u8) -> (r: u8)
    requires
        b < 8,
    ensures
        forall|x: u8| ((x & r) != 0) == ((x >> b) & 1 == 1),
{
    let r: u8 = 1u8 << b;
    proof {
        assert forall|x: u8| ((x & (1u8 << b)) != 0) == ((x >> b) & 1 == 1) by {
            assert(b < 8 ==> (((x & (1u8 << b)) != 0) == ((x >> b) & 1 == 1))) by (bit_vector);
        }
    }
    r
}

/// Mathematical model of a packet: every header field, the extension chain,
/// and the payload.
#[verifier::ext_equal]
pub ghost struct PacketModel {
    pub ty: PacketType,
    pub connection_id: u16,
    pub timestamp_microseconds: u32,
    pub timestamp_difference_microseconds: u32,
    pub wnd_size: u32,
    pub seq_nr: u16,
    pub ack_nr: u16,
    pub extensions: Seq<(u8, Seq<u8>)>,
    pub payload: Seq<u8>,
}

/// A protocol packet: fixed header fields, extension chain, payload.
#[derive(Clone, Debug)]
pub struct Packet {
    pub ty: PacketType,
    pub connection_id: u16,
    pub timestamp_microseconds: u32,
    pub timestamp_difference_microseconds: u32,
    pub wnd_size: u32,
    pub seq_nr: u16,
    pub ack_nr: u16,
    pub extensions: Vec<Extension>,
    pub payload: Vec<u8>,
}

impl View for Packet {
    type V = PacketModel;

    open spec fn view(&self) -> PacketModel {
        PacketModel {
            ty: self.ty,
            connection_id: self.connection_id,
            timestamp_microseconds: self.timestamp_microseconds,
            timestamp_difference_microseconds: self.timestamp_difference_microseconds,
            wnd_size: self.wnd_size,
            seq_nr: self.seq_nr,
            ack_nr: self.ack_nr,
            extensions: self.extensions@.map_values(|e: Extension| e@),
            payload: self.payload@,
        }
    }
}

// ------------------------------------------------------------------
// Wire encoding, as a specification.
// ------------------------------------------------------------------

/// Big-endian bytes of a 16-bit value.
pub open spec fn be16(x: u16) -> Seq<u8> {
    seq![(x / 256) as u8, (x % 256) as u8]
}

/// Big-endian bytes of a 32-bit value.
pub open spec fn be32(x: u32) -> Seq<u8> {
    seq![
        (x / 0x1000000) as u8,
        ((x / 0x10000) % 256) as u8,
        ((x / 256) % 256) as u8,
        (x % 256) as u8,
    ]
}

/// The 16-bit value read back from two big-endian bytes.
pub open spec fn combine16(hi: u8, lo: u8) -> u16 {
    (hi * 256 + lo) as u16
}

/// The 32-bit value read back from four big-endian bytes.
pub open spec fn combine32(b0: u8, b1: u8, b2: u8, b3: u8) -> u32 {
    (b0 * 0x1000000 + b1 * 0x10000 + b2 * 256 + b3) as u32
}

/// Type tag of the first extension of a chain, or 0 when there is none;
/// this is what the second header byte carries.
pub open spec fn ext_first_type(exts: Seq<(u8, Seq<u8>)>) -> u8 {
    if exts.len() == 0 {
        0
    } else {
        exts[0].0
    }
}

/// The extension records as laid out on the wire: each record holds the type
/// tag of the record after it (0 for the last), a length byte, and the data.
pub open spec fn ext_records(exts: Seq<(u8, Seq<u8>)>) -> Seq<u8>
    decreases exts.len(),
{
    if exts.len() == 0 {
        Seq::empty()
    } else {
        seq![ext_first_type(exts.drop_first()), exts[0].1.len() as u8] + exts[0].1
            + ext_records(exts.drop_first())
    }
}

/// The 20 header bytes of a packet.
pub open spec fn header_bytes(p: PacketModel) -> Seq<u8> {
    seq![(spec_type_code(p.ty) * 16 + VERSION) as u8, ext_first_type(p.extensions)]
        + be16(p.connection_id) + be32(p.timestamp_microseconds) + be32(
        p.timestamp_difference_microseconds,
    ) + be32(p.wnd_size) + be16(p.seq_nr) + be16(p.ack_nr)
}

/// The complete wire form of a packet.
pub open spec fn spec_encode(p: PacketModel) -> Seq<u8> {
    header_bytes(p) + ext_records(p.extensions) + p.payload
}

/// A packet can be written to the wire when every extension has a nonzero
/// type tag (0 terminates the chain) and data short enough for the one-byte
/// length field.
pub open spec fn encodable_exts(exts: Seq<(u8, Seq<u8>)>) -> bool {
    forall|i: int|
        0 <= i < exts.len() ==> #[trigger] exts[i].0 != 0 && exts[i].1.len() <= 255
}

/// See [`encodable_exts`].
pub open spec fn encodable(p: PacketModel) -> bool {
    encodable_exts(p.extensions)
}

/// Total wire length of the extension records of a chain.
pub open spec fn ext_wire_len(exts: Seq<(u8, Seq<u8>)>) -> int
    decreases exts.len(),
{
    if exts.len() == 0 {
        0
    } else {
        2 + exts[0].1.len() + ext_wire_len(exts.drop_first())
    }
}

/// Total wire length of a packet.
pub open spec fn spec_len(p: PacketModel) -> int {
    HEADER_SIZE + ext_wire_len(p.extensions) + p.payload.len()
}

pub proof fn lemma_ext_records_len(exts: Seq<(u8, Seq<u8>)>)
    ensures
        ext_records(exts).len() == ext_wire_len(exts),
    decreases exts.len(),
{
    if exts.len() > 0 {
        lemma_ext_records_len(exts.drop_first());
    }
}

pub proof fn lemma_encode_len(p: PacketModel)
    ensures
        spec_encode(p).len() == spec_len(p),
{
    lemma_ext_records_len(p.extensions);
}

// ------------------------------------------------------------------
// Wire decoding, as a specification.
// ------------------------------------------------------------------

/// Parses the extension chain of `b` starting at `pos`, where `first` is the
/// type tag of the extension about to be read (0 for none). Returns the
/// records and the position where the payload starts.
pub open spec fn spec_parse_exts(b: Seq<u8>, pos: int, first: u8) -> Option<
    (Seq<(u8, Seq<u8>)>, int),
>
    decreases b.len() - pos,
{
    if first == 0 {
        Some((Seq::empty(), pos))
    } else if pos < 0 || pos + 2 > b.len() {
        None
    } else if pos + 2 + b[pos + 1] > b.len() {
        None
    } else {
        let next = b[pos];
        let dlen = b[pos + 1] as int;
        let data = b.subrange(pos + 2, pos + 2 + dlen);
        match spec_parse_exts(b, pos + 2 + dlen, next) {
            None => None,
            Some((rest, end)) => Some((seq![(first, data)] + rest, end)),
        }
    }
}

/// The packet a byte string stands for, if it is well formed: long enough
/// for the header, version 1, a known type code, and a complete extension
/// chain.
pub open spec fn spec_decode(b: Seq<u8>) -> Option<PacketModel> {
    if b.len() < HEADER_SIZE {
        None
    } else if b[0] % 16 != VERSION || b[0] / 16 > 4 {
        None
    } else {
        match spec_parse_exts(b, HEADER_SIZE as int, b[1]) {
            None => None,
            Some((exts, end)) => Some(
                PacketModel {
                    ty: spec_type_of_code(b[0] / 16),
                    connection_id: combine16(b[2], b[3]),
                    timestamp_microseconds: combine32(b[4], b[5], b[6], b[7]),
                    timestamp_difference_microseconds: combine32(b[8], b[9], b[10], b[11]),
                    wnd_size: combine32(b[12], b[13], b[14], b[15]),
                    seq_nr: combine16(b[16], b[17]),
                    ack_nr: combine16(b[18], b[19]),
                    extensions: exts,
                    payload: b.subrange(end, b.len() as int),
                },
            ),
        }
    }
}

// ------------------------------------------------------------------
// Round trip: decoding an encoded packet gives the packet back.
// ------------------------------------------------------------------

proof fn lemma_parse_encoded_exts(exts: Seq<(u8, Seq<u8>)>, tail: Seq<u8>, b: Seq<u8>, pos: int)
    requires
        encodable_exts(exts),
        0 <= pos <= b.len(),
        b.subrange(pos, b.len() as int) == ext_records(exts) + tail,
    ensures
        spec_parse_exts(b, pos, ext_first_type(exts)) == Some(
            (exts, b.len() - tail.len()),
        ),
    decreases exts.len(),
{
    lemma_ext_records_len(exts);
    let suffix = b.subrange(pos, b.len() as int);
    assert(suffix.len() == b.len() - pos);
    if exts.len() == 0 {
        assert(exts =~= Seq::<(u8, Seq<u8>)>::empty());
        assert(pos == b.len() - tail.len());
    } else {
        let first = exts[0].0;
        let d = exts[0].1;
        let rest = exts.drop_first();
        let rec = seq![ext_first_type(rest), d.len() as u8] + d;
        assert(suffix =~= rec + (ext_records(rest) + tail));
        assert(first != 0);
        assert(b[pos] == suffix[0]);
        assert(b[pos + 1] == suffix[1]);
        assert(suffix[1] == d.len() as u8);
        lemma_ext_records_len(rest);
        assert(pos + 2 + d.len() <= b.len());
        assert(b.subrange(pos + 2, pos + 2 + d.len()) =~= d) by {
            assert forall|i: int| 0 <= i < d.len() implies b.subrange(
                pos + 2,
                pos + 2 + d.len() as int,
            )[i] == d[i] by {
                assert(b.subrange(pos + 2, pos + 2 + d.len() as int)[i] == suffix[i + 2]);
                assert(suffix[i + 2] == rec[i + 2]);
            }
        }
        let pos2 = pos + 2 + d.len() as int;
        assert(b.subrange(pos2, b.len() as int) =~= ext_records(rest) + tail) by {
            assert forall|i: int| 0 <= i < b.len() - pos2 implies b.subrange(
                pos2,
                b.len() as int,
            )[i] == (ext_records(rest) + tail)[i] by {
                assert(b.subrange(pos2, b.len() as int)[i] == suffix[i + 2 + d.len()]);
            }
        }
        lemma_parse_encoded_exts(rest, tail, b, pos2);
        let parsed = spec_parse_exts(b, pos, first);
        assert(parsed matches Some((e, end)) && e == seq![(first, d)] + rest && end == b.len()
            - tail.len());
        assert(seq![(first, d)] + rest =~= exts);
    }
}

/// The codec round-trips: a well-formed packet written to the wire and read
/// back is the same packet.
pub proof fn lemma_codec_round_trip(p: PacketModel)
    requires
        encodable(p),
    ensures
        spec_decode(spec_encode(p)) == Some(p),
{
    let b = spec_encode(p);
    let h = header_bytes(p);
    assert(h.len() == HEADER_SIZE);
    lemma_ext_records_len(p.extensions);
    assert(b.len() >= HEADER_SIZE);
    assert forall|i: int| 0 <= i < HEADER_SIZE implies b[i] == h[i] by {}
    let code = spec_type_code(p.ty);
    assert(b[0] == (code * 16 + VERSION) as u8);
    assert(code <= 4);
    assert(b[0] % 16 == VERSION && b[0] / 16 == code);
    assert(spec_type_of_code(code) == p.ty);
    assert(b[1] == ext_first_type(p.extensions));
    assert(b.subrange(HEADER_SIZE as int, b.len() as int) =~= ext_records(p.extensions)
        + p.payload);
    lemma_parse_encoded_exts(p.extensions, p.payload, b, HEADER_SIZE as int);
    let end = b.len() - p.payload.len();
    assert(b.subrange(end as int, b.len() as int) =~= p.payload);
    lemma_combine16_be16(p.connection_id);
    lemma_combine16_be16(p.seq_nr);
    lemma_combine16_be16(p.ack_nr);
    lemma_combine32_be32(p.timestamp_microseconds);
    lemma_combine32_be32(p.timestamp_difference_microseconds);
    lemma_combine32_be32(p.wnd_size);
    assert(h[2] == be16(p.connection_id)[0] && h[3] == be16(p.connection_id)[1]);
    assert(h[16] == be16(p.seq_nr)[0] && h[17] == be16(p.seq_nr)[1]);
    assert(h[18] == be16(p.ack_nr)[0] && h[19] == be16(p.ack_nr)[1]);
    assert(h[4] == be32(p.timestamp_microseconds)[0] && h[5] == be32(p.timestamp_microseconds)[1]
        && h[6] == be32(p.timestamp_microseconds)[2] && h[7] == be32(
        p.timestamp_microseconds,
    )[3]);
    assert(h[8] == be32(p.timestamp_difference_microseconds)[0] && h[9] == be32(
        p.timestamp_difference_microseconds,
    )[1] && h[10] == be32(p.timestamp_difference_microseconds)[2] && h[11] == be32(
        p.timestamp_difference_microseconds,
    )[3]);
    assert(h[12] == be32(p.wnd_size)[0] && h[13] == be32(p.wnd_size)[1] && h[14] == be32(
        p.wnd_size,
    )[2] && h[15] == be32(p.wnd_size)[3]);
    let q = spec_decode(b)->Some_0;
    assert(q =~= p);
}

/// View of a vector of extensions as the sequence of their models.
pub open spec fn exts_view(v: Seq<Extension>) -> Seq<(u8, Seq<u8>)> {
    v.map_values(|e: Extension| e@)
}

pub proof fn lemma_parse_some_encodable(b: Seq<u8>, pos: int, first: u8)
    requires
        spec_parse_exts(b, pos, first) is Some,
    ensures
        encodable_exts(spec_parse_exts(b, pos, first)->Some_0.0),
    decreases b.len() - pos,
{
    if first != 0 {
        let dlen = b[pos + 1] as int;
        lemma_parse_some_encodable(b, pos + 2 + dlen, b[pos]);
    }
}

/// Writing back two parsed big-endian bytes gives the bytes.
pub proof fn lemma_be16_combine16(hi: u8, lo: u8)
    ensures
        be16(combine16(hi, lo)) == seq![hi, lo],
{
    let x = combine16(hi, lo) as int;
    assert(x == hi * 256 + lo);
    assert(x / 256 == hi && x % 256 == lo) by (nonlinear_arith)
        requires
            x == hi * 256 + lo,
            0 <= lo < 256,
            0 <= hi < 256,
    ;
    assert(be16(combine16(hi, lo)) =~= seq![hi, lo]);
}

/// Writing back four parsed big-endian bytes gives the bytes.
pub proof fn lemma_be32_combine32(b0: u8, b1: u8, b2: u8, b3: u8)
    ensures
        be32(combine32(b0, b1, b2, b3)) == seq![b0, b1, b2, b3],
{
    let x = combine32(b0, b1, b2, b3) as int;
    assert(x == b0 * 0x1000000 + b1 * 0x10000 + b2 * 256 + b3);
    assert(x / 0x1000000 == b0 && (x / 0x10000) % 256 == b1 && (x / 256) % 256 == b2 && x % 256
        == b3) by (nonlinear_arith)
        requires
            x == b0 * 0x1000000 + b1 * 0x10000 + b2 * 256 + b3,
            0 <= b0 < 256,
            0 <= b1 < 256,
            0 <= b2 < 256,
            0 <= b3 < 256,
    ;
    assert(be32(combine32(b0, b1, b2, b3)) =~= seq![b0, b1, b2, b3]);
}

/// A parsed extension chain writes back to exactly the bytes it was read
/// from.
proof fn lemma_records_of_parsed(b: Seq<u8>, pos: int, first: u8)
    requires
        0 <= pos <= b.len(),
        spec_parse_exts(b, pos, first) is Some,
    ensures
        ({
            let (exts, end) = spec_parse_exts(b, pos, first)->Some_0;
            &&& ext_first_type(exts) == first
            &&& pos <= end <= b.len()
            &&& ext_records(exts) == b.subrange(pos, end)
        }),
    decreases b.len() - pos,
{
    let (exts, end) = spec_parse_exts(b, pos, first)->Some_0;
    if first == 0 {
        assert(ext_records(exts) =~= b.subrange(pos, pos));
    } else {
        let dlen = b[pos + 1] as int;
        let data = b.subrange(pos + 2, pos + 2 + dlen);
        let pos2 = pos + 2 + dlen;
        lemma_records_of_parsed(b, pos2, b[pos]);
        let (rest, end2) = spec_parse_exts(b, pos2, b[pos])->Some_0;
        assert(exts == seq![(first, data)] + rest && end == end2);
        assert(exts[0] == (first, data));
        assert(exts.drop_first() =~= rest);
        assert(ext_records(exts) == seq![ext_first_type(rest), data.len() as u8] + data
            + ext_records(rest));
        assert(ext_records(exts) =~= b.subrange(pos, end)) by {
            assert(ext_first_type(rest) == b[pos]);
            assert(data.len() == dlen);
            assert(ext_records(rest) == b.subrange(pos2, end));
            assert forall|i: int| 0 <= i < end - pos implies ext_records(exts)[i] == b.subrange(
                pos,
                end,
            )[i] by {
                lemma_ext_records_len(exts);
                lemma_ext_records_len(rest);
                if i == 0 {
                } else if i == 1 {
                    assert(b.subrange(pos, end)[1] == b[pos + 1]);
                    assert(dlen as u8 == b[pos + 1]);
                } else if i < 2 + dlen {
                    assert(ext_records(exts)[i] == data[i - 2]);
                } else {
                    assert(ext_records(exts)[i] == ext_records(rest)[i - 2 - dlen]);
                }
            }
        }
    }
}

/// The codec round-trips in the other direction too: a well-formed byte
/// string read back and rewritten is the same byte string, bit for bit.
pub proof fn lemma_codec_round_trip_bytes(b: Seq<u8>)
    requires
        spec_decode(b) is Some,
    ensures
        spec_encode(spec_decode(b)->Some_0) == b,
{
    let p = spec_decode(b)->Some_0;
    lemma_records_of_parsed(b, HEADER_SIZE as int, b[1]);
    let (exts, end) = spec_parse_exts(b, HEADER_SIZE as int, b[1])->Some_0;
    let h = header_bytes(p);
    assert(h[0] == b[0]) by {
        let code = b[0] / 16;
        assert(spec_type_code(spec_type_of_code(code)) == code);
        assert(code * 16 + b[0] % 16 == b[0]) by (nonlinear_arith)
            requires
                code == b[0] / 16,
        ;
    }
    lemma_be16_combine16(b[2], b[3]);
    lemma_be16_combine16(b[16], b[17]);
    lemma_be16_combine16(b[18], b[19]);
    lemma_be32_combine32(b[4], b[5], b[6], b[7]);
    lemma_be32_combine32(b[8], b[9], b[10], b[11]);
    lemma_be32_combine32(b[12], b[13], b[14], b[15]);
    assert(h =~= b.subrange(0, HEADER_SIZE as int));
    assert(spec_encode(p) =~= b) by {
        lemma_ext_records_len(exts);
        assert(ext_records(p.extensions) == b.subrange(HEADER_SIZE as int, end));
        assert(p.payload == b.subrange(end, b.len() as int));
    }
}

pub proof fn lemma_combine16_be16(x: u16)
    ensures
        combine16(be16(x)[0], be16(x)[1]) == x,
{
    assert(x / 256 * 256 + x % 256 == x) by (nonlinear_arith);
    assert(x / 256 <= 255) by (nonlinear_arith);
}

pub proof fn lemma_combine32_be32(x: u32)
    ensures
        combine32(be32(x)[0], be32(x)[1], be32(x)[2], be32(x)[3]) == x,
{
    assert((x / 0x1000000) * 0x1000000 + ((x / 0x10000) % 256) * 0x10000 + ((x / 256) % 256) * 256
        + x % 256 == x) by (nonlinear_arith);
    assert(x / 0x1000000 <= 255) by (nonlinear_arith);
}

// ------------------------------------------------------------------
// Executable codec.
// ------------------------------------------------------------------

fn push_be16(out: &mut Vec<u8>, x: u16)
    ensures
        final(out)@ == old(out)@ + be16(x),
{
    proof {
        assert(x / 256 <= 255) by (nonlinear_arith);
    }
    out.push((x / 256) as u8);
    out.push((x % 256) as u8);
    assert(out@ =~= old(out)@ + be16(x));
}

fn push_be32(out: &mut Vec<u8>, x: u32)
    ensures
        final(out)@ == old(out)@ + be32(x),
{
    proof {
        assert(x / 0x1000000 <= 255) by (nonlinear_arith);
    }
    out.push((x / 0x1000000) as u8);
    out.push(((x / 0x10000) % 256) as u8);
    out.push(((x / 256) % 256) as u8);
    out.push((x % 256) as u8);
    assert(out@ =~= old(out)@ + be32(x));
}

fn read_u16(b: &[u8], i: usize) -> (r: u16)
    requires
        i + 2 <= b@.len(),
    ensures
        r == combine16(b@[i as int], b@[i + 1]),
{
    (b[i] as u16) * 256 + (b[i + 1] as u16)
}

fn read_u32(b: &[u8], i: usize) -> (r: u32)
    requires
        i + 4 <= b@.len(),
    ensures
        r == combine32(b@[i as int], b@[i + 1], b@[i + 2], b@[i + 3]),
{
    (b[i] as u32) * 0x1000000 + (b[i + 1] as u32) * 0x10000 + (b[i + 2] as u32) * 256 + (b[i
        + 3] as u32)
}

/// Copies `b[start..end]` into a fresh vector.
fn bytes_range(b: &[u8], start: usize, end: usize) -> (r: Vec<u8>)
    requires
        start <= end <= b@.len(),
    ensures
        r@ == b@.subrange(start as int, end as int),
{
    let mut r: Vec<u8> = Vec::new();
    let mut i: usize = start;
    while i < end
        invariant
            start <= i <= end <= b@.len(),
            r@ == b@.subrange(start as int, i as int),
        decreases end - i,
    {
        r.push(b[i]);
        i = i + 1;
        assert(r@ =~= b@.subrange(start as int, i as int));
    }
    r
}

/// Writes the extension records of `exts[i..]` as they appear on the wire.
fn ext_records_vec(exts: &Vec<Extension>, i: usize) -> (r: Vec<u8>)
    requires
        i <= exts@.len(),
        encodable_exts(exts_view(exts@).skip(i as int)),
    ensures
        r@ == ext_records(exts_view(exts@).skip(i as int)),
    decreases exts@.len() - i,
{
    let ghost tail = exts_view(exts@).skip(i as int);
    if i == exts.len() {
        assert(tail =~= Seq::<(u8, Seq<u8>)>::empty());
        Vec::new()
    } else {
        assert(tail[0] == exts@[i as int]@);
        let next_ty: u8 = if i + 1 < exts.len() {
            proof {
                assert(tail.drop_first()[0] == exts@[i + 1]@);
            }
            exts[i + 1].ty
        } else {
            proof {
                assert(tail.drop_first() =~= Seq::<(u8, Seq<u8>)>::empty());
            }
            0
        };
        assert(next_ty == ext_first_type(tail.drop_first()));
        let mut out: Vec<u8> = Vec::new();
        out.push(next_ty);
        out.push(exts[i].data.len() as u8);
        out.extend_from_slice(exts[i].data.as_slice());
        proof {
            assert(exts_view(exts@).skip(i + 1) =~= tail.drop_first());
        }
        let mut rest = ext_records_vec(exts, i + 1);
        out.append(&mut rest);
        assert(out@ =~= ext_records(tail));
        out
    }
}

/// Parses an extension chain starting at `pos`, where `first` is the type
/// tag of the next record (0 for none). Returns the extensions and the
/// offset where the payload begins.
fn parse_exts(b: &[u8], pos: usize, first: u8) -> (r: Option<(Vec<Extension>, usize)>)
    requires
        pos <= b@.len(),
    ensures
        r is Some <==> spec_parse_exts(b@, pos as int, first) is Some,
        r matches Some((v, end)) ==> spec_parse_exts(b@, pos as int, first) == Some(
            (exts_view(v@), end as int),
        ) && end <= b@.len(),
    decreases b@.len() - pos,
{
    if first == 0 {
        let v: Vec<Extension> = Vec::new();
        assert(exts_view(v@) =~= Seq::<(u8, Seq<u8>)>::empty());
        Some((v, pos))
    } else if b.len() - pos < 2 {
        None
    } else {
        let next: u8 = b[pos];
        let dlen: usize = b[pos + 1] as usize;
        if dlen > b.len() - (pos + 2) {
            None
        } else {
            let data = bytes_range(b, pos + 2, pos + 2 + dlen);
            match parse_exts(b, pos + 2 + dlen, next) {
                None => None,
                Some((rest, end)) => {
                    let mut v: Vec<Extension> = Vec::new();
                    v.push(Extension { ty: first, data });
                    let mut rest = rest;
                    let ghost rest_view = exts_view(rest@);
                    v.append(&mut rest);
                    proof {
                        let whole = spec_parse_exts(b@, pos as int, first)->Some_0.0;
                        assert(exts_view(v@) =~= whole);
                    }
                    Some((v, end))
                },
            }
        }
    }
}

impl Packet {
    /// A fresh packet: type Data, every field zero, no extensions, no
    /// payload.
    pub fn new() -> (r: Packet)
        ensures
            r@ == (PacketModel {
                ty: PacketType::Data,
                connection_id: 0,
                timestamp_microseconds: 0,
                timestamp_difference_microseconds: 0,
                wnd_size: 0,
                seq_nr: 0,
                ack_nr: 0,
                extensions: Seq::<(u8, Seq<u8>)>::empty(),
                payload: Seq::<u8>::empty(),
            }),
    {
        let r = Packet {
            ty: PacketType::Data,
            connection_id: 0,
            timestamp_microseconds: 0,
            timestamp_difference_microseconds: 0,
            wnd_size: 0,
            seq_nr: 0,
            ack_nr: 0,
            extensions: Vec::new(),
            payload: Vec::new(),
        };
        proof {
            assert(r@.extensions =~= Seq::<(u8, Seq<u8>)>::empty());
            assert(r@ =~= (PacketModel {
                ty: PacketType::Data,
                connection_id: 0,
                timestamp_microseconds: 0,
                timestamp_difference_microseconds: 0,
                wnd_size: 0,
                seq_nr: 0,
                ack_nr: 0,
                extensions: Seq::<(u8, Seq<u8>)>::empty(),
                payload: Seq::<u8>::empty(),
            }));
        }
        r
    }

    /// A deep copy of this packet.
    pub fn duplicate(&self) -> (r: Packet)
        ensures
            r@ == self@,
    {
        let mut exts: Vec<Extension> = Vec::new();
        let mut i: usize = 0;
        while i < self.extensions.len()
            invariant
                i <= self.extensions@.len(),
                exts@.len() == i,
                forall|j: int| 0 <= j < i ==> #[trigger] exts@[j]@ == self.extensions@[j]@,
            decreases self.extensions@.len() - i,
        {
            let e = Extension {
                ty: self.extensions[i].ty,
                data: clone_bytes(&self.extensions[i].data),
            };
            assert(e@ == self.extensions@[i as int]@);
            exts.push(e);
            i = i + 1;
        }
        let r = Packet {
            ty: self.ty,
            connection_id: self.connection_id,
            timestamp_microseconds: self.timestamp_microseconds,
            timestamp_difference_microseconds: self.timestamp_difference_microseconds,
            wnd_size: self.wnd_size,
            seq_nr: self.seq_nr,
            ack_nr: self.ack_nr,
            extensions: exts,
            payload: clone_bytes(&self.payload),
        };
        proof {
            assert(exts_view(r.extensions@) =~= exts_view(self.extensions@));
            assert(r@ =~= self@);
        }
        r
    }

    /// The packet type.
    pub fn get_type(&self) -> (r: PacketType)
        ensures
            r == self@.ty,
    {
        self.ty
    }

    /// Sets the packet type.
    pub fn set_type(&mut self, t: PacketType)
        ensures
            final(self)@ == (PacketModel { ty: t, ..old(self)@ }),
    {
        self.ty = t;
    }

    /// The connection identifier.
    pub fn connection_id(&self) -> (r: u16)
        ensures
            r == self@.connection_id,
    {
        self.connection_id
    }

    /// Sets the connection identifier.
    pub fn set_connection_id(&mut self, id: u16)
        ensures
            final(self)@ == (PacketModel { connection_id: id, ..old(self)@ }),
    {
        self.connection_id = id;
    }

    /// The sequence number.
    pub fn seq_nr(&self) -> (r: u16)
        ensures
            r == self@.seq_nr,
    {
        self.seq_nr
    }

    /// Sets the sequence number.
    pub fn set_seq_nr(&mut self, n: u16)
        ensures
            final(self)@ == (PacketModel { seq_nr: n, ..old(self)@ }),
    {
        self.seq_nr = n;
    }

    /// The acknowledgment number.
    pub fn ack_nr(&self) -> (r: u16)
        ensures
            r == self@.ack_nr,
    {
        self.ack_nr
    }

    /// Sets the acknowledgment number.
    pub fn set_ack_nr(&mut self, n: u16)
        ensures
            final(self)@ == (PacketModel { ack_nr: n, ..old(self)@ }),
    {
        self.ack_nr = n;
    }

    /// The advertised receive window, in bytes.
    pub fn wnd_size(&self) -> (r: u32)
        ensures
            r == self@.wnd_size,
    {
        self.wnd_size
    }

    /// Sets the advertised receive window.
    pub fn set_wnd_size(&mut self, w: u32)
        ensures
            final(self)@ == (PacketModel { wnd_size: w, ..old(self)@ }),
    {
        self.wnd_size = w;
    }

    /// The sender's microsecond timestamp.
    pub fn timestamp_microseconds(&self) -> (r: u32)
        ensures
            r == self@.timestamp_microseconds,
    {
        self.timestamp_microseconds
    }

    /// Sets the sender's microsecond timestamp.
    pub fn set_timestamp_microseconds(&mut self, t: u32)
        ensures
            final(self)@ == (PacketModel { timestamp_microseconds: t, ..old(self)@ }),
    {
        self.timestamp_microseconds = t;
    }

    /// The sender's timestamp-difference field.
    pub fn timestamp_difference_microseconds(&self) -> (r: u32)
        ensures
            r == self@.timestamp_difference_microseconds,
    {
        self.timestamp_difference_microseconds
    }

    /// Sets the timestamp-difference field.
    pub fn set_timestamp_difference_microseconds(&mut self, t: u32)
        ensures
            final(self)@ == (PacketModel {
                timestamp_difference_microseconds: t,
                ..old(self)@
            }),
    {
        self.timestamp_difference_microseconds = t;
    }

    /// Appends a selective-ack extension carrying the given bitmap; `None`
    /// leaves the packet unchanged.
    pub fn set_sack(&mut self, bitmap: Option<Vec<u8>>)
        requires
            bitmap matches Some(bm) ==> bm@.len() <= 255,
        ensures
            bitmap matches Some(bm) ==> final(self)@ == (PacketModel {
                extensions: old(self)@.extensions.push((SELECTIVE_ACK_TYPE, bm@)),
                ..old(self)@
            }),
            bitmap is None ==> final(self)@ == old(self)@,
    {
        match bitmap {
            Some(bm) => {
                let ghost bm0 = bm@;
                self.extensions.push(Extension { ty: SELECTIVE_ACK_TYPE, data: bm });
                proof {
                    assert(exts_view(self.extensions@) =~= exts_view(old(self).extensions@).push(
                        (SELECTIVE_ACK_TYPE, bm0),
                    ));
                    assert(self@ =~= (PacketModel {
                        extensions: old(self)@.extensions.push((SELECTIVE_ACK_TYPE, bm0)),
                        ..old(self)@
                    }));
                }
            },
            None => {},
        }
    }

    /// Total wire length of this packet in bytes.
    pub fn len(&self) -> (r: usize)
        requires
            spec_len(self@) <= usize::MAX,
        ensures
            r == spec_len(self@),
    {
        let mut n: usize = HEADER_SIZE;
        let mut i: usize = 0;
        proof {
            lemma_ext_wire_len_parts(self@.extensions, 0);
            assert(self@.extensions.take(0int) =~= Seq::<(u8, Seq<u8>)>::empty());
        }
        while i < self.extensions.len()
            invariant
                i <= self.extensions@.len(),
                spec_len(self@) <= usize::MAX,
                n == HEADER_SIZE + ext_wire_len(self@.extensions.take(i as int)),
            decreases self.extensions@.len() - i,
        {
            proof {
                lemma_ext_wire_len_take_step(self@.extensions, i as int);
                lemma_ext_wire_len_parts(self@.extensions, i + 1);
                vstd::seq_lib::lemma_seq_skip_nothing(self@.extensions, 0);
            }
            n = n + 2 + self.extensions[i].data.len();
            i = i + 1;
        }
        proof {
            assert(self@.extensions.take(i as int) =~= self@.extensions);
        }
        n + self.payload.len()
    }

    /// Whether this packet can be written to the wire with a total length
    /// the window arithmetic can hold: every extension has a nonzero tag and
    /// at most 255 data bytes, and the whole packet fits 32 bits.
    pub fn check_wire_size(&self) -> (r: bool)
        ensures
            r == (encodable(self@) && spec_len(self@) <= u32::MAX),
    {
        if self.payload.len() > 0xFFFF_FFFFusize - HEADER_SIZE {
            proof {
                lemma_ext_wire_len_parts(self@.extensions, self@.extensions.len() as int);
                assert(self@.extensions.take(self@.extensions.len() as int) =~= self@.extensions);
            }
            return false;
        }
        let mut acc: u64 = (HEADER_SIZE + self.payload.len()) as u64;
        let mut i: usize = 0;
        proof {
            lemma_ext_wire_len_parts(self@.extensions, 0);
            assert(self@.extensions.take(0int) =~= Seq::<(u8, Seq<u8>)>::empty());
        }
        while i < self.extensions.len()
            invariant
                i <= self.extensions@.len(),
                acc == HEADER_SIZE + self.payload@.len() + ext_wire_len(
                    self@.extensions.take(i as int),
                ),
                acc <= u32::MAX,
                HEADER_SIZE + self.payload@.len() <= u32::MAX,
                forall|j: int|
                    0 <= j < i ==> (#[trigger] self@.extensions[j]).0 != 0
                        && self@.extensions[j].1.len() <= 255,
            decreases self.extensions@.len() - i,
        {
            proof {
                assert(self@.extensions[i as int] == self.extensions@[i as int]@);
                lemma_ext_wire_len_take_step(self@.extensions, i as int);
            }
            let e = &self.extensions[i];
            if e.ty == 0 || e.data.len() > 255 {
                proof {
                    assert(self@.extensions[i as int].0 == e.ty && self@.extensions[
                        i as int
                    ].1.len() == e.data@.len());
                }
                return false;
            }
            let next: u64 = acc + 2 + (e.data.len() as u64);
            if next > 0xFFFF_FFFFu64 {
                proof {
                    lemma_ext_wire_len_parts(self@.extensions, i + 1);
                }
                return false;
            }
            acc = next;
            i = i + 1;
        }
        proof {
            assert(self@.extensions.take(i as int) =~= self@.extensions);
        }
        true
    }

    /// Writes this packet to its wire form.
    pub fn bytes(&self) -> (r: Vec<u8>)
        requires
            encodable(self@),
        ensures
            r@ == spec_encode(self@),
    {
        let mut out: Vec<u8> = Vec::new();
        out.push(self.ty.code() * 16 + VERSION);
        let first_ty: u8 = if self.extensions.len() > 0 {
            proof {
                assert(exts_view(self.extensions@)[0] == self.extensions@[0]@);
            }
            self.extensions[0].ty
        } else {
            proof {
                assert(exts_view(self.extensions@).len() == 0);
            }
            0
        };
        out.push(first_ty);
        push_be16(&mut out, self.connection_id);
        push_be32(&mut out, self.timestamp_microseconds);
        push_be32(&mut out, self.timestamp_difference_microseconds);
        push_be32(&mut out, self.wnd_size);
        push_be16(&mut out, self.seq_nr);
        push_be16(&mut out, self.ack_nr);
        assert(out@ =~= header_bytes(self@));
        proof {
            assert(exts_view(self.extensions@).skip(0int) =~= self@.extensions);
        }
        let mut recs = ext_records_vec(&self.extensions, 0);
        out.append(&mut recs);
        out.extend_from_slice(self.payload.as_slice());
        assert(out@ =~= spec_encode(self@));
        out
    }

    /// Reads a packet back from its wire form; `None` when the bytes are not
    /// a well-formed packet.
    pub fn decode(b: &[u8]) -> (r: Option<Packet>)
        ensures
            r is Some <==> spec_decode(b@) is Some,
            r matches Some(p) ==> spec_decode(b@) == Some(p@) && encodable(p@),
    {
        if b.len() < HEADER_SIZE {
            return None;
        }
        let b0: u8 = b[0];
        if b0 % 16 != VERSION {
            return None;
        }
        let ty = match PacketType::from_code(b0 / 16) {
            Some(t) => t,
            None => {
                return None;
            },
        };
        match parse_exts(b, HEADER_SIZE, b[1]) {
            None => None,
            Some((exts, end)) => {
                proof {
                    lemma_parse_some_encodable(b@, HEADER_SIZE as int, b@[1]);
                }
                let p = Packet {
                    ty,
                    connection_id: read_u16(b, 2),
                    timestamp_microseconds: read_u32(b, 4),
                    timestamp_difference_microseconds: read_u32(b, 8),
                    wnd_size: read_u32(b, 12),
                    seq_nr: read_u16(b, 16),
                    ack_nr: read_u16(b, 18),
                    extensions: exts,
                    payload: bytes_range(b, end, b.len()),
                };
                proof {
                    assert(p@ =~= spec_decode(b@)->Some_0);
                }
                Some(p)
            },
        }
    }
}

/// A copy of a byte vector.
pub fn clone_bytes(v: &Vec<u8>) -> (r: Vec<u8>)
    ensures
        r@ == v@,
{
    let mut r: Vec<u8> = Vec::new();
    let mut i: usize = 0;
    while i < v.len()
        invariant
            i <= v@.len(),
            r@ == v@.take(i as int),
        decreases v@.len() - i,
    {
        r.push(v[i]);
        i = i + 1;
        assert(r@ =~= v@.take(i as int));
    }
    assert(v@.take(v@.len() as int) =~= v@);
    r
}

proof fn lemma_ext_wire_len_parts(exts: Seq<(u8, Seq<u8>)>, i: int)
    requires
        0 <= i <= exts.len(),
    ensures
        ext_wire_len(exts.take(i)) >= 0,
        ext_wire_len(exts.take(i)) + ext_wire_len(exts.skip(i)) == ext_wire_len(exts),
        ext_wire_len(exts.skip(i)) >= 0,
    decreases exts.len(), i,
{
    lemma_ext_wire_len_nonneg(exts.take(i));
    lemma_ext_wire_len_nonneg(exts.skip(i));
    if i == 0 {
        assert(exts.take(0int) =~= Seq::<(u8, Seq<u8>)>::empty());
        assert(exts.skip(0int) =~= exts);
    } else {
        assert(exts.len() > 0);
        assert(exts.take(i).drop_first() =~= exts.drop_first().take(i - 1));
        assert(exts.skip(i) =~= exts.drop_first().skip(i - 1));
        lemma_ext_wire_len_parts(exts.drop_first(), i - 1);
    }
}

proof fn lemma_ext_wire_len_nonneg(exts: Seq<(u8, Seq<u8>)>)
    ensures
        ext_wire_len(exts) >= 0,
    decreases exts.len(),
{
    if exts.len() > 0 {
        lemma_ext_wire_len_nonneg(exts.drop_first());
    }
}

proof fn lemma_ext_wire_len_take_step(exts: Seq<(u8, Seq<u8>)>, i: int)
    requires
        0 <= i < exts.len(),
    ensures
        ext_wire_len(exts.take(i + 1)) == ext_wire_len(exts.take(i)) + 2 + exts[i].1.len(),
    decreases i,
{
    if i == 0 {
        assert(exts.take(0int) =~= Seq::<(u8, Seq<u8>)>::empty());
        assert(exts.take(1int).drop_first() =~= Seq::<(u8, Seq<u8>)>::empty());
    } else {
        assert(exts.take(i + 1).drop_first() =~= exts.drop_first().take(i));
        assert(exts.take(i).drop_first() =~= exts.drop_first().take(i - 1));
        lemma_ext_wire_len_take_step(exts.drop_first(), i - 1);
    }
}

} // verus!

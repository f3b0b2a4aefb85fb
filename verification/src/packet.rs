use vstd::prelude::*;

use crate::errors::Error;
use crate::errors::ErrorV;

verus! {

/// Size in bytes of the fixed packet header that precedes every wire packet.
pub const HEADER_SIZE: usize = 8;

/// Status flag on a packet header: this packet is the last one of its message.
pub const STATUS_END_OF_MESSAGE: u8 = 0x01;

/// Status flag: plain packet, more packets of the same message follow.
pub const STATUS_NORMAL: u8 = 0x00;

/// Status flag: the server should ignore this message.
pub const STATUS_IGNORE: u8 = 0x02;

/// Status flag: reset the connection before processing this message.
pub const STATUS_RESET_CONNECTION: u8 = 0x08;

/// The declared kind of a wire packet.
#[derive(Clone, Copy, PartialEq, Eq, Structural, Debug)]
pub enum PacketType {
    SqlBatch,
    PreTds7Login,
    Rpc,
    TabularResult,
    AttentionSignal,
    BulkLoadData,
    TransactionManagerRequest,
    Tds7Login,
    Sspi,
    PreLogin,
}

pub open spec fn spec_packet_type_of(b: u8) -> Option<PacketType> {
    if b == 1 {
        Some(PacketType::SqlBatch)
    } else if b == 2 {
        Some(PacketType::PreTds7Login)
    } else if b == 3 {
        Some(PacketType::Rpc)
    } else if b == 4 {
        Some(PacketType::TabularResult)
    } else if b == 6 {
        Some(PacketType::AttentionSignal)
    } else if b == 7 {
        Some(PacketType::BulkLoadData)
    } else if b == 14 {
        Some(PacketType::TransactionManagerRequest)
    } else if b == 16 {
        Some(PacketType::Tds7Login)
    } else if b == 17 {
        Some(PacketType::Sspi)
    } else if b == 18 {
        Some(PacketType::PreLogin)
    } else {
        None
    }
}

pub open spec fn spec_packet_type_byte(t: PacketType) -> u8 {
    match t {
        PacketType::SqlBatch => 1,
        PacketType::PreTds7Login => 2,
        PacketType::Rpc => 3,
        PacketType::TabularResult => 4,
        PacketType::AttentionSignal => 6,
        PacketType::BulkLoadData => 7,
        PacketType::TransactionManagerRequest => 14,
        PacketType::Tds7Login => 16,
        PacketType::Sspi => 17,
        PacketType::PreLogin => 18,
    }
}

/// The packet type stands for exactly one wire byte.
pub proof fn lemma_packet_type_byte_roundtrip(t: PacketType)
    ensures
        spec_packet_type_of(spec_packet_type_byte(t)) == Some(t),
{
}

pub fn packet_type_of(b: u8) -> (r: Option<PacketType>)
    ensures
        r == spec_packet_type_of(b),
{
    match b {
        1 => Some(PacketType::SqlBatch),
        2 => Some(PacketType::PreTds7Login),
        3 => Some(PacketType::Rpc),
        4 => Some(PacketType::TabularResult),
        6 => Some(PacketType::AttentionSignal),
        7 => Some(PacketType::BulkLoadData),
        14 => Some(PacketType::TransactionManagerRequest),
        16 => Some(PacketType::Tds7Login),
        17 => Some(PacketType::Sspi),
        18 => Some(PacketType::PreLogin),
        _ => None,
    }
}

pub fn packet_type_byte(t: PacketType) -> (r: u8)
    ensures
        r == spec_packet_type_byte(t),
{
    match t {
        PacketType::SqlBatch => 1,
        PacketType::PreTds7Login => 2,
        PacketType::Rpc => 3,
        PacketType::TabularResult => 4,
        PacketType::AttentionSignal => 6,
        PacketType::BulkLoadData => 7,
        PacketType::TransactionManagerRequest => 14,
        PacketType::Tds7Login => 16,
        PacketType::Sspi => 17,
        PacketType::PreLogin => 18,
    }
}

/// The fixed 8-byte framing header that precedes every wire packet.
/// `length` counts the whole packet, header included, and travels
/// big-endian on the wire, as does `routing_id`.
#[derive(Clone, Copy, PartialEq, Eq, Structural, Debug)]
pub struct PacketHeader {
    pub packet_type: PacketType,
    pub status: u8,
    pub length: u16,
    pub routing_id: u16,
    pub packet_id: u8,
    pub window: u8,
}

/// A 16-bit big-endian quantity assembled from two wire bytes.
pub open spec fn spec_be16(hi: u8, lo: u8) -> u16 {
    (hi * 256 + lo) as u16
}

/// The 8 wire bytes of a header.
pub open spec fn spec_encode_header(h: PacketHeader) -> Seq<u8> {
    seq![
        spec_packet_type_byte(h.packet_type),
        h.status,
        (h.length / 256) as u8,
        (h.length % 256) as u8,
        (h.routing_id / 256) as u8,
        (h.routing_id % 256) as u8,
        h.packet_id,
        h.window,
    ]
}

/// The header read from 8 wire bytes starting at `pos`, or `None` when the
/// type byte is not one this protocol knows.
pub open spec fn spec_header_at(s: Seq<u8>, pos: int) -> Option<PacketHeader>
    recommends
        0 <= pos,
        pos + HEADER_SIZE <= s.len(),
{
    match spec_packet_type_of(s[pos]) {
        Some(t) => Some(
            PacketHeader {
                packet_type: t,
                status: s[pos + 1],
                length: spec_be16(s[pos + 2], s[pos + 3]),
                routing_id: spec_be16(s[pos + 4], s[pos + 5]),
                packet_id: s[pos + 6],
                window: s[pos + 7],
            },
        ),
        None => None,
    }
}

/// Decoding inverts encoding: the 8 bytes written for a header read back
/// as that same header.
pub proof fn lemma_header_roundtrip(h: PacketHeader)
    ensures
        spec_header_at(spec_encode_header(h), 0) == Some(h),
{
    lemma_packet_type_byte_roundtrip(h.packet_type);
    assert(spec_be16((h.length / 256) as u8, (h.length % 256) as u8) == h.length);
    assert(spec_be16((h.routing_id / 256) as u8, (h.routing_id % 256) as u8) == h.routing_id);
}

/// A header encoded somewhere inside a larger byte sequence reads back
/// as itself.
pub proof fn lemma_header_at_encoded(h: PacketHeader, s: Seq<u8>, pos: int)
    requires
        0 <= pos,
        pos + HEADER_SIZE <= s.len(),
        s.subrange(pos, pos + HEADER_SIZE as int) == spec_encode_header(h),
    ensures
        spec_header_at(s, pos) == Some(h),
{
    let e = spec_encode_header(h);
    assert forall|i: int| 0 <= i < 8 implies s[pos + i] == e[i] by {
        assert(s.subrange(pos, pos + 8)[i] == s[pos + i]);
    }
    assert(s[pos + 0] == e[0]);
    assert(s[pos + 1] == e[1]);
    assert(s[pos + 2] == e[2]);
    assert(s[pos + 3] == e[3]);
    assert(s[pos + 4] == e[4]);
    assert(s[pos + 5] == e[5]);
    assert(s[pos + 6] == e[6]);
    assert(s[pos + 7] == e[7]);
    lemma_header_roundtrip(h);
}

/// Appends the 8 wire bytes of `h` to `out`.
pub fn encode_header(h: &PacketHeader, out: &mut Vec<u8>)
    ensures
        final(out)@ == old(out)@ + spec_encode_header(*h),
{
    out.push(packet_type_byte(h.packet_type));
    out.push(h.status);
    out.push((h.length / 256) as u8);
    out.push((h.length % 256) as u8);
    out.push((h.routing_id / 256) as u8);
    out.push((h.routing_id % 256) as u8);
    out.push(h.packet_id);
    out.push(h.window);
    assert(out@ =~= old(out)@ + spec_encode_header(*h));
}

/// Reads the header whose 8 bytes start at `s[pos]`; an unknown type byte
/// is a protocol error.
pub fn decode_header(s: &[u8], pos: usize) -> (r: Result<PacketHeader, Error>)
    requires
        pos + HEADER_SIZE <= s@.len(),
    ensures
        match spec_header_at(s@, pos as int) {
            Some(h) => r matches Ok(got) && got == h,
            None => r matches Err(e) && e@ == crate::errors::ErrorV::UnknownPacketType(
                s@[pos as int],
            ),
        },
{
    let ty = match packet_type_of(s[pos]) {
        Some(t) => t,
        None => {
            return Err(Error::UnknownPacketType(s[pos]));
        },
    };
    let length = (s[pos + 2] as u16) * 256 + (s[pos + 3] as u16);
    let routing_id = (s[pos + 4] as u16) * 256 + (s[pos + 5] as u16);
    Ok(
        PacketHeader {
            packet_type: ty,
            status: s[pos + 1],
            length,
            routing_id,
            packet_id: s[pos + 6],
            window: s[pos + 7],
        },
    )
}

/// Flips status bits on in a header already written at `offset` inside
/// `buf`, without touching any other byte. Used to mark the last packet
/// of a message once chunking has finished.
pub fn update_status(buf: &mut Vec<u8>, offset: usize, flags: u8)
    requires
        offset + HEADER_SIZE <= old(buf)@.len(),
    ensures
        final(buf)@ == old(buf)@.update(offset as int + 1, (old(buf)@[offset as int + 1] | flags)),
{
    let n = buf.len();
    assert(offset + 1 < n);
    let cur: u8 = buf[offset + 1];
    buf[offset + 1] = cur | flags;
    assert(buf@ =~= old(buf)@.update(offset as int + 1, (old(buf)@[offset as int + 1] | flags)));
}

} // verus!


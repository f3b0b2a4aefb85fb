use vstd::prelude::*;

use crate::errors::ErrorV;
use crate::packet::{
    spec_encode_header, spec_header_at, lemma_header_at_encoded, PacketHeader, PacketType,
    HEADER_SIZE, STATUS_END_OF_MESSAGE, STATUS_NORMAL,
};

verus! {

/// True when the status byte carries the end-of-message bit.
pub open spec fn spec_has_eom(status: u8) -> bool {
    status & STATUS_END_OF_MESSAGE == STATUS_END_OF_MESSAGE
}

/// The two status constants land on the two sides of the end-of-message
/// bit test.
pub proof fn lemma_frame_eom_bits()
    ensures
        spec_has_eom(STATUS_END_OF_MESSAGE),
        !spec_has_eom(STATUS_NORMAL),
{
    assert(1u8 & 1u8 == 1u8) by (bit_vector);
    assert(0u8 & 1u8 == 0u8) by (bit_vector);
}

/// The packet id that follows `pid`, wrapping at 256.
pub open spec fn spec_next_packet_id(pid: u8) -> u8 {
    ((pid + 1) % 256) as u8
}

/// The exact wire bytes produced by chunking `payload` into packets of at
/// most `packet_size` bytes each (header included): every chunk but the
/// last fills its packet and is marked `STATUS_NORMAL`; the last chunk is
/// marked `STATUS_END_OF_MESSAGE`. A `packet_size` of 8 or less cannot
/// frame anything and produces no bytes.
pub open spec fn spec_frame(t: PacketType, payload: Seq<u8>, packet_size: u16, pid: u8) -> Seq<u8>
    recommends
        packet_size > 8,
    decreases payload.len(),
{
    if packet_size <= 8 {
        Seq::empty()
    } else {
        let cap = packet_size - 8;
        if payload.len() <= cap {
            spec_encode_header(
                PacketHeader {
                    packet_type: t,
                    status: STATUS_END_OF_MESSAGE,
                    length: (payload.len() + 8) as u16,
                    routing_id: 0,
                    packet_id: pid,
                    window: 0,
                },
            ) + payload
        } else {
            spec_encode_header(
                PacketHeader {
                    packet_type: t,
                    status: STATUS_NORMAL,
                    length: packet_size,
                    routing_id: 0,
                    packet_id: pid,
                    window: 0,
                },
            ) + payload.take(cap as int) + spec_frame(
                t,
                payload.skip(cap as int),
                packet_size,
                spec_next_packet_id(pid),
            )
        }
    }
}

/// How many packets the chunking of a payload of length `payload_len`
/// produces.
pub open spec fn spec_frame_packet_count(payload_len: int, packet_size: u16) -> int
    decreases payload_len,
{
    if packet_size <= 8 {
        0
    } else if payload_len <= packet_size - 8 {
        1
    } else {
        1 + spec_frame_packet_count(payload_len - (packet_size - 8), packet_size)
    }
}

/// The header of the last packet of a framed message.
pub open spec fn spec_last_header(t: PacketType, payload: Seq<u8>, packet_size: u16, pid: u8) -> PacketHeader
    recommends
        packet_size > 8,
    decreases payload.len(),
{
    if packet_size <= 8 {
        arbitrary()
    } else if payload.len() <= packet_size - 8 {
        PacketHeader {
            packet_type: t,
            status: STATUS_END_OF_MESSAGE,
            length: (payload.len() + 8) as u16,
            routing_id: 0,
            packet_id: pid,
            window: 0,
        }
    } else {
        spec_last_header(
            t,
            payload.skip(packet_size - 8),
            packet_size,
            spec_next_packet_id(pid),
        )
    }
}

/// The framed bytes are exactly the payload plus one header per packet.
pub proof fn lemma_frame_len(t: PacketType, payload: Seq<u8>, packet_size: u16, pid: u8)
    requires
        packet_size > 8,
    ensures
        spec_frame(t, payload, packet_size, pid).len() == payload.len() + 8
            * spec_frame_packet_count(payload.len() as int, packet_size),
    decreases payload.len(),
{
    let cap = packet_size - 8;
    if payload.len() > cap {
        lemma_frame_len(t, payload.skip(cap as int), packet_size, spec_next_packet_id(pid));
    }
}

/// Chunking always produces at least one packet, chunks cover the payload,
/// and every chunk but possibly the last is full.
pub proof fn lemma_count_bounds(l: int, packet_size: u16)
    requires
        packet_size > 8,
        0 <= l,
    ensures
        ({
            let c = packet_size - 8;
            let n = spec_frame_packet_count(l, packet_size);
            1 <= n && l <= n * c && (n == 1 || l > (n - 1) * c)
        }),
    decreases l,
{
    let c = (packet_size - 8) as int;
    let n = spec_frame_packet_count(l, packet_size);
    if l <= c {
        assert(1 * c == c) by (nonlinear_arith);
    } else {
        lemma_count_bounds(l - c, packet_size);
        let m = spec_frame_packet_count(l - c, packet_size);
        assert((m + 1) * c == m * c + c) by (nonlinear_arith);
        if m >= 2 {
            assert(m * c == (m - 1) * c + c) by (nonlinear_arith);
        } else {
            assert(1 * c == c) by (nonlinear_arith);
        }
    }
}

/// The packet count equals the closed-form ceiling `(L + 8 + P - 1) / P`.
/// The formula holds for up to two packets always, and for longer messages
/// exactly when the last chunk is longer than 8 bytes for every full chunk
/// beyond the first; the `requires` states that boundary exactly.
pub proof fn lemma_frame_count_formula(l: int, packet_size: u16)
    requires
        packet_size > 8,
        0 <= l,
        ({
            let c = packet_size - 8;
            let n = spec_frame_packet_count(l, packet_size);
            n <= 2 || l - (n - 1) * c > 8 * (n - 2)
        }),
    ensures
        spec_frame_packet_count(l, packet_size) == (l + 8 + packet_size - 1) / (packet_size as int),
{
    let p = packet_size as int;
    let c = p - 8;
    let n = spec_frame_packet_count(l, packet_size);
    lemma_count_bounds(l, packet_size);
    assert(n * p == n * c + 8 * n) by (nonlinear_arith)
        requires
            c == p - 8,
    ;
    assert(l + 8 <= n * p);
    if n == 1 {
        assert((n - 1) * p == 0) by (nonlinear_arith)
            requires
                n == 1,
        ;
    } else if n == 2 {
        assert((n - 1) * p == p) by (nonlinear_arith)
            requires
                n == 2,
        ;
        assert(1 * c == c) by (nonlinear_arith);
    } else {
        assert((n - 1) * p == (n - 1) * c + 8 * (n - 1)) by (nonlinear_arith)
            requires
                c == p - 8,
        ;
    }
    assert(l + 8 > (n - 1) * p);
    let m = l + 8 + p - 1;
    assert((n - 1) * p == n * p - p) by (nonlinear_arith);
    assert(n * p <= m);
    assert(m - n * p < p);
    vstd::arithmetic::div_mod::lemma_fundamental_div_mod_converse(m, p, n, m - n * p);
}

/// Result of reading one whole message's worth of packets out of a byte
/// source: the last header seen, the reassembled payload, and the position
/// just past the consumed bytes -- or the error and the position at which
/// reading stopped.
pub struct PacketRead {
    pub header: PacketHeader,
    pub payload: Seq<u8>,
    pub end: int,
}

pub enum RecvResult {
    Read(PacketRead),
    Fail(ErrorV, int),
}

/// Reads header+chunk pairs starting at `pos`, accumulating chunks onto
/// `acc`, until a header carries the end-of-message bit. Every header's
/// declared length must cover its own 8 bytes and stay within the
/// negotiated packet size. Running out of bytes mid-message fails back at
/// `start`, the beginning of the whole message, so that the read can be
/// retried from there once more bytes have arrived.
pub open spec fn spec_recv_rest(
    input: Seq<u8>,
    start: int,
    pos: int,
    packet_size: u16,
    acc: Seq<u8>,
) -> RecvResult
    recommends
        0 <= start <= pos <= input.len(),
    decreases input.len() - pos,
{
    if pos < 0 || pos + 8 > input.len() {
        RecvResult::Fail(ErrorV::UnexpectedEof, start)
    } else {
        match spec_header_at(input, pos) {
            None => RecvResult::Fail(ErrorV::UnknownPacketType(input[pos]), pos + 8),
            Some(h) => {
                if h.length < 8 || h.length > packet_size {
                    RecvResult::Fail(ErrorV::InvalidPacketLength(h.length), pos + 8)
                } else if pos + h.length > input.len() {
                    RecvResult::Fail(ErrorV::UnexpectedEof, start)
                } else {
                    let chunk = input.subrange(pos + 8, pos + h.length);
                    if spec_has_eom(h.status) {
                        RecvResult::Read(PacketRead { header: h, payload: acc + chunk, end: pos + h.length })
                    } else {
                        spec_recv_rest(input, start, pos + h.length, packet_size, acc + chunk)
                    }
                }
            },
        }
    }
}

/// Reads one whole message starting at `pos`: the first header must carry
/// the tabular-result type -- any other type is fatal desynchronization,
/// detected after exactly that one header -- then packets are accumulated
/// until the end-of-message bit.
pub open spec fn spec_recv_packet(input: Seq<u8>, pos: int, packet_size: u16) -> RecvResult
    recommends
        0 <= pos <= input.len(),
{
    if pos < 0 || pos + 8 > input.len() {
        RecvResult::Fail(ErrorV::UnexpectedEof, pos)
    } else {
        match spec_header_at(input, pos) {
            None => RecvResult::Fail(ErrorV::UnknownPacketType(input[pos]), pos + 8),
            Some(h) => {
                if h.packet_type != PacketType::TabularResult {
                    RecvResult::Fail(ErrorV::UnexpectedPacketType(input[pos]), pos + 8)
                } else {
                    spec_recv_rest(input, pos, pos, packet_size, Seq::empty())
                }
            },
        }
    }
}

/// Reading never runs backwards past the message start and never past the
/// input.
pub proof fn lemma_recv_rest_bounds(
    input: Seq<u8>,
    start: int,
    pos: int,
    packet_size: u16,
    acc: Seq<u8>,
)
    requires
        0 <= start <= pos <= input.len(),
    ensures
        match spec_recv_rest(input, start, pos, packet_size, acc) {
            RecvResult::Read(ok) => pos + 8 <= ok.end <= input.len() && ok.payload.len()
                <= acc.len() + (ok.end - pos) - 8,
            RecvResult::Fail(_, np) => start <= np <= input.len(),
        },
    decreases input.len() - pos,
{
    if pos + 8 <= input.len() {
        match spec_header_at(input, pos) {
            Some(h) => {
                if 8 <= h.length <= packet_size && pos + h.length <= input.len() && !spec_has_eom(
                    h.status,
                ) {
                    lemma_recv_rest_bounds(
                        input,
                        start,
                        pos + h.length,
                        packet_size,
                        acc + input.subrange(pos + 8, pos + h.length),
                    );
                }
            },
            None => {},
        }
    }
}

/// Same bounds for a whole-message read.
pub proof fn lemma_recv_packet_bounds(input: Seq<u8>, pos: int, packet_size: u16)
    requires
        0 <= pos <= input.len(),
    ensures
        match spec_recv_packet(input, pos, packet_size) {
            RecvResult::Read(ok) => pos + 8 <= ok.end <= input.len() && ok.payload.len() <= (
            ok.end - pos) - 8,
            RecvResult::Fail(_, np) => pos <= np <= input.len(),
        },
{
    if pos + 8 <= input.len() {
        match spec_header_at(input, pos) {
            Some(h) => {
                if h.packet_type == PacketType::TabularResult {
                    lemma_recv_rest_bounds(input, pos, pos, packet_size, Seq::empty());
                }
            },
            None => {},
        }
    }
}

/// A header whose declared type is not tabular-result fails the read with
/// a protocol error after consuming exactly the one header.
pub proof fn lemma_non_tabular_fails_after_one_header(input: Seq<u8>, pos: int, packet_size: u16)
    requires
        0 <= pos,
        pos + 8 <= input.len(),
        spec_header_at(input, pos) matches Some(h) && h.packet_type != PacketType::TabularResult,
    ensures
        spec_recv_packet(input, pos, packet_size) == RecvResult::Fail(
            ErrorV::UnexpectedPacketType(input[pos]),
            pos + 8,
        ),
{
}

/// Reassembling the packets of a framed message yields the original
/// payload byte for byte, ends exactly at the end of the frame, and the
/// header handed back is the last one, carrying the end-of-message status.
pub proof fn lemma_frame_recv_rest(
    t: PacketType,
    payload: Seq<u8>,
    packet_size: u16,
    pid: u8,
    input: Seq<u8>,
    start: int,
    pos: int,
    acc: Seq<u8>,
)
    requires
        packet_size > 8,
        0 <= start <= pos,
        input.len() == pos + spec_frame(t, payload, packet_size, pid).len(),
        input.subrange(pos, input.len() as int) == spec_frame(t, payload, packet_size, pid),
    ensures
        spec_recv_rest(input, start, pos, packet_size, acc) == RecvResult::Read(
            PacketRead {
                header: spec_last_header(t, payload, packet_size, pid),
                payload: acc + payload,
                end: input.len() as int,
            },
        ),
    decreases payload.len(),
{
    lemma_frame_eom_bits();
    let cap = (packet_size - 8) as int;
    let frame = spec_frame(t, payload, packet_size, pid);
    assert forall|i: int| 0 <= i < frame.len() implies input[pos + i] == frame[i] by {
        assert(input.subrange(pos, input.len() as int)[i] == input[pos + i]);
    }
    if payload.len() <= cap {
        let h = PacketHeader {
            packet_type: t,
            status: STATUS_END_OF_MESSAGE,
            length: (payload.len() + 8) as u16,
            routing_id: 0,
            packet_id: pid,
            window: 0,
        };
        assert(frame == spec_encode_header(h) + payload);
        assert(input.subrange(pos, pos + 8) =~= spec_encode_header(h));
        lemma_header_at_encoded(h, input, pos);
        assert(h.length == payload.len() + 8);
        let sub = input.subrange(pos + 8, pos + h.length);
        assert forall|j: int| 0 <= j < sub.len() implies sub[j] == payload[j] by {
            assert(frame[8 + j] == payload[j]);
            assert(input[pos + (8 + j)] == frame[8 + j]);
            assert(sub[j] == input[pos + 8 + j]);
        }
        assert(sub =~= payload);
        assert(acc + sub == acc + payload);
    } else {
        let h = PacketHeader {
            packet_type: t,
            status: STATUS_NORMAL,
            length: packet_size,
            routing_id: 0,
            packet_id: pid,
            window: 0,
        };
        let rest = payload.skip(cap);
        let rest_frame = spec_frame(t, rest, packet_size, spec_next_packet_id(pid));
        assert(frame == spec_encode_header(h) + payload.take(cap) + rest_frame);
        lemma_frame_len(t, rest, packet_size, spec_next_packet_id(pid));
        lemma_count_bounds(rest.len() as int, packet_size);
        assert(rest_frame.len() >= 8);
        assert(input.subrange(pos, pos + 8) =~= spec_encode_header(h));
        lemma_header_at_encoded(h, input, pos);
        assert(pos + h.length <= input.len());
        let sub = input.subrange(pos + 8, pos + h.length);
        assert forall|j: int| 0 <= j < sub.len() implies sub[j] == payload.take(cap)[j] by {
            assert(frame[8 + j] == payload.take(cap)[j]);
            assert(input[pos + (8 + j)] == frame[8 + j]);
            assert(sub[j] == input[pos + 8 + j]);
        }
        assert(sub =~= payload.take(cap));
        let pos2 = pos + packet_size;
        let sub2 = input.subrange(pos2, input.len() as int);
        assert forall|j: int| 0 <= j < sub2.len() implies sub2[j] == rest_frame[j] by {
            assert(frame[packet_size + j] == rest_frame[j]);
            assert(input[pos + (packet_size + j)] == frame[packet_size + j]);
            assert(sub2[j] == input[pos2 + j]);
        }
        assert(sub2 =~= rest_frame);
        lemma_frame_recv_rest(
            t,
            rest,
            packet_size,
            spec_next_packet_id(pid),
            input,
            start,
            pos2,
            acc + payload.take(cap),
        );
        assert((acc + payload.take(cap)) + rest =~= acc + payload);
    }
}

/// Chunking round-trip: reading back a framed message from position 0
/// reproduces the payload exactly and consumes the whole frame; the
/// returned header is the last one, with the end-of-message status set.
pub proof fn lemma_frame_roundtrip(t: PacketType, payload: Seq<u8>, packet_size: u16, pid: u8)
    requires
        packet_size > 8,
        t == PacketType::TabularResult,
    ensures
        ({
            let frame = spec_frame(t, payload, packet_size, pid);
            let last = spec_last_header(t, payload, packet_size, pid);
            spec_recv_packet(frame, 0, packet_size) == RecvResult::Read(
                PacketRead { header: last, payload: payload, end: frame.len() as int },
            ) && last.status == STATUS_END_OF_MESSAGE && last.packet_type == t
        }),
    decreases payload.len(),
{
    let cap = (packet_size - 8) as int;
    let frame = spec_frame(t, payload, packet_size, pid);
    let h0 = if payload.len() <= cap {
        PacketHeader {
            packet_type: t,
            status: STATUS_END_OF_MESSAGE,
            length: (payload.len() + 8) as u16,
            routing_id: 0,
            packet_id: pid,
            window: 0,
        }
    } else {
        PacketHeader {
            packet_type: t,
            status: STATUS_NORMAL,
            length: packet_size,
            routing_id: 0,
            packet_id: pid,
            window: 0,
        }
    };
    assert(frame.subrange(0, 8) =~= spec_encode_header(h0));
    lemma_header_at_encoded(h0, frame, 0);
    assert(frame.subrange(0, frame.len() as int) =~= frame);
    lemma_frame_recv_rest(t, payload, packet_size, pid, frame, 0, 0, Seq::empty());
    assert(Seq::empty() + payload =~= payload);
    lemma_last_header_eom(t, payload, packet_size, pid);
}

/// The last header of a frame always carries the end-of-message status and
/// the framed type.
pub proof fn lemma_last_header_eom(t: PacketType, payload: Seq<u8>, packet_size: u16, pid: u8)
    requires
        packet_size > 8,
    ensures
        spec_last_header(t, payload, packet_size, pid).status == STATUS_END_OF_MESSAGE,
        spec_last_header(t, payload, packet_size, pid).packet_type == t,
    decreases payload.len(),
{
    let cap = (packet_size - 8) as int;
    if payload.len() > cap {
        lemma_last_header_eom(t, payload.skip(cap), packet_size, spec_next_packet_id(pid));
    }
}

/// An empty payload still frames as exactly one packet: just one header,
/// 8 bytes long, marked end-of-message.
pub proof fn lemma_empty_payload_single_packet(t: PacketType, packet_size: u16, pid: u8)
    requires
        packet_size > 8,
    ensures
        ({
            let frame = spec_frame(t, Seq::empty(), packet_size, pid);
            frame.len() == HEADER_SIZE && spec_frame_packet_count(0, packet_size) == 1
                && spec_header_at(frame, 0) == Some(
                PacketHeader {
                    packet_type: t,
                    status: STATUS_END_OF_MESSAGE,
                    length: 8,
                    routing_id: 0,
                    packet_id: pid,
                    window: 0,
                },
            )
        }),
{
    let h = PacketHeader {
        packet_type: t,
        status: STATUS_END_OF_MESSAGE,
        length: 8,
        routing_id: 0,
        packet_id: pid,
        window: 0,
    };
    let frame = spec_frame(t, Seq::empty(), packet_size, pid);
    assert(frame =~= spec_encode_header(h) + Seq::<u8>::empty());
    assert(frame.subrange(0, 8) =~= spec_encode_header(h));
    lemma_header_at_encoded(h, frame, 0);
}

/// Every packet of a frame except the last carries `STATUS_NORMAL` in its
/// status byte, and the last carries `STATUS_END_OF_MESSAGE`; packet `k`'s
/// header starts at wire offset `k * packet_size`.
pub proof fn lemma_frame_statuses(t: PacketType, payload: Seq<u8>, packet_size: u16, pid: u8, k: int)
    requires
        packet_size > 8,
        0 <= k < spec_frame_packet_count(payload.len() as int, packet_size),
    ensures
        ({
            let frame = spec_frame(t, payload, packet_size, pid);
            let n = spec_frame_packet_count(payload.len() as int, packet_size);
            frame[k * packet_size + 1] == if k == n - 1 {
                STATUS_END_OF_MESSAGE
            } else {
                STATUS_NORMAL
            }
        }),
    decreases payload.len(),
{
    let p = packet_size as int;
    let cap = p - 8;
    let frame = spec_frame(t, payload, packet_size, pid);
    let n = spec_frame_packet_count(payload.len() as int, packet_size);
    if payload.len() <= cap {
        assert(k == 0);
        assert(0 * p == 0) by (nonlinear_arith);
        assert(frame[1] == STATUS_END_OF_MESSAGE);
    } else {
        let rest = payload.skip(cap);
        let rest_frame = spec_frame(t, rest, packet_size, spec_next_packet_id(pid));
        let m = spec_frame_packet_count(rest.len() as int, packet_size);
        lemma_count_bounds(rest.len() as int, packet_size);
        if k == 0 {
            assert(0 * p == 0) by (nonlinear_arith);
            assert(frame[1] == STATUS_NORMAL);
        } else {
            lemma_frame_statuses(t, rest, packet_size, spec_next_packet_id(pid), k - 1);
            lemma_frame_len(t, rest, packet_size, spec_next_packet_id(pid));
            assert(k * p == (k - 1) * p + p) by (nonlinear_arith);
            if m == 1 {
                assert(k == 1);
                assert((k - 1) * p == 0) by (nonlinear_arith)
                    requires
                        k == 1,
                ;
                assert((k - 1) * p + 1 < rest_frame.len());
            } else {
                assert(rest.len() > (m - 1) * cap);
                assert(k - 1 <= m - 1);
                assert((k - 1) * p <= (m - 1) * p) by (nonlinear_arith)
                    requires
                        k - 1 <= m - 1,
                        p > 0,
                ;
                assert((m - 1) * p == (m - 1) * cap + 8 * (m - 1)) by (nonlinear_arith)
                    requires
                        cap == p - 8,
                ;
                assert(rest_frame.len() == rest.len() + 8 * m);
                assert((k - 1) * p + 1 < rest_frame.len());
            }
            assert(frame[k * p + 1] == rest_frame[(k - 1) * p + 1]);
        }
    }
}

} // verus!

use tds_stream::errors::Error;
use tds_stream::packet::{
    decode_header, encode_header, update_status, PacketHeader, PacketType, HEADER_SIZE,
    STATUS_END_OF_MESSAGE, STATUS_NORMAL,
};
use tds_stream::stream::MssqlStream;

fn raw_header(ty: u8, status: u8, length: u16, pid: u8) -> Vec<u8> {
    vec![
        ty,
        status,
        (length >> 8) as u8,
        (length & 0xff) as u8,
        0,
        0,
        pid,
        0,
    ]
}

fn tabular_packet(status: u8, payload: &[u8]) -> Vec<u8> {
    let mut v = raw_header(4, status, (payload.len() + 8) as u16, 1);
    v.extend_from_slice(payload);
    v
}

#[test]
fn header_codec_roundtrip() {
    let h = PacketHeader {
        packet_type: PacketType::Rpc,
        status: STATUS_END_OF_MESSAGE,
        length: 0x1234,
        routing_id: 7,
        packet_id: 250,
        window: 0,
    };
    let mut buf: Vec<u8> = Vec::new();
    encode_header(&h, &mut buf);
    assert_eq!(buf.len(), HEADER_SIZE);
    assert_eq!(buf[0], 3);
    assert_eq!(buf[2], 0x12);
    assert_eq!(buf[3], 0x34);
    let back = decode_header(&buf, 0).unwrap();
    assert_eq!(back, h);
}

#[test]
fn header_codec_rejects_unknown_type() {
    let buf = raw_header(99, 0, 8, 1);
    let e = decode_header(&buf, 0).unwrap_err();
    assert!(matches!(e, Error::UnknownPacketType(99)));
}

#[test]
fn update_status_patches_in_place() {
    let mut buf = raw_header(4, STATUS_NORMAL, 8, 1);
    update_status(&mut buf, 0, STATUS_END_OF_MESSAGE);
    assert_eq!(buf[1], STATUS_END_OF_MESSAGE);
    assert_eq!(buf[0], 4);
    assert_eq!(buf[2..], raw_header(4, STATUS_NORMAL, 8, 1)[2..]);
}

#[test]
fn chunking_roundtrip_multi_packet() {
    // payload of 10000 bytes at the default packet size of 4096:
    // ceil((10000 + 8) / 4096) == 3 packets
    let payload: Vec<u8> = (0..10000u32).map(|i| (i % 251) as u8).collect();
    let mut writer = MssqlStream::new();
    writer.write_packet(PacketType::TabularResult, &payload);
    let wire = writer.take_write_buffer();
    assert_eq!(wire.len(), 10000 + 3 * 8);

    // every packet's status is NORMAL except the last, which is EOM
    assert_eq!(wire[1], STATUS_NORMAL);
    assert_eq!(wire[4096 + 1], STATUS_NORMAL);
    assert_eq!(wire[2 * 4096 + 1], STATUS_END_OF_MESSAGE);

    // reading the frame back reproduces the payload byte for byte
    let mut reader = MssqlStream::new();
    reader.feed(&wire);
    let (last, body) = reader.recv_packet().unwrap();
    assert_eq!(last.status, STATUS_END_OF_MESSAGE);
    assert_eq!(&body[..], &payload[..]);
    assert_eq!(reader.rpos, wire.len());
}

#[test]
fn chunking_single_packet_exact_fit() {
    // exactly one full packet: payload of packet_size - 8 bytes
    let payload = vec![0xABu8; 4096 - 8];
    let mut writer = MssqlStream::new();
    writer.write_packet(PacketType::TabularResult, &payload);
    let wire = writer.take_write_buffer();
    assert_eq!(wire.len(), 4096);
    assert_eq!(wire[1], STATUS_END_OF_MESSAGE);
    let mut reader = MssqlStream::new();
    reader.feed(&wire);
    let (_, body) = reader.recv_packet().unwrap();
    assert_eq!(&body[..], &payload[..]);
}

#[test]
fn zero_length_payload_frames_one_packet() {
    let mut writer = MssqlStream::new();
    writer.write_packet(PacketType::TabularResult, &[]);
    let wire = writer.take_write_buffer();
    assert_eq!(wire.len(), HEADER_SIZE);
    let h = decode_header(&wire, 0).unwrap();
    assert_eq!(h.status, STATUS_END_OF_MESSAGE);
    assert_eq!(h.length, 8);
    assert_eq!(h.packet_id, 1);
}

#[test]
fn non_tabular_header_fails_after_one_header() {
    let mut s = MssqlStream::new();
    // an RPC-typed packet followed by a well-formed empty tabular packet
    let mut wire = raw_header(3, STATUS_END_OF_MESSAGE, 8, 1);
    wire.extend_from_slice(&tabular_packet(STATUS_END_OF_MESSAGE, &[]));
    s.feed(&wire);
    let e = s.recv_packet().unwrap_err();
    assert!(matches!(e, Error::UnexpectedPacketType(3)));
    // exactly the one 8-byte header was consumed: the next read succeeds
    assert_eq!(s.rpos, 8);
    let (h, body) = s.recv_packet().unwrap();
    assert_eq!(h.status, STATUS_END_OF_MESSAGE);
    assert_eq!(body.len(), 0);
}

#[test]
fn truncated_header_is_transport_error() {
    let mut s = MssqlStream::new();
    s.feed(&[4, 1, 0]);
    let e = s.recv_packet().unwrap_err();
    assert!(matches!(e, Error::UnexpectedEof));
}

#[test]
fn declared_length_below_header_size_is_rejected() {
    let mut s = MssqlStream::new();
    s.feed(&raw_header(4, STATUS_END_OF_MESSAGE, 7, 1));
    let e = s.recv_packet().unwrap_err();
    assert!(matches!(e, Error::InvalidPacketLength(7)));
}

#[test]
fn declared_length_above_packet_size_is_rejected() {
    let mut s = MssqlStream::new();
    s.feed(&raw_header(4, STATUS_END_OF_MESSAGE, 5000, 1));
    // 5000 > 4096: desynchronization relative to the negotiated size
    assert!(matches!(
        s.recv_packet().unwrap_err(),
        Error::InvalidPacketLength(5000)
    ));
}

#[test]
fn multi_packet_message_reassembles_in_order() {
    let mut s = MssqlStream::new();
    let mut wire = tabular_packet(STATUS_NORMAL, b"abc");
    wire.extend_from_slice(&tabular_packet(STATUS_END_OF_MESSAGE, b"def"));
    s.feed(&wire);
    let (h, body) = s.recv_packet().unwrap();
    assert_eq!(h.status, STATUS_END_OF_MESSAGE);
    assert_eq!(&body[..], b"abcdef");
}

#[test]
fn packet_ids_increment_from_one() {
    let payload = vec![0u8; 2 * (4096 - 8) + 5];
    let mut writer = MssqlStream::new();
    writer.write_packet(PacketType::SqlBatch, &payload);
    let wire = writer.take_write_buffer();
    assert_eq!(wire[6], 1);
    assert_eq!(wire[4096 + 6], 2);
    assert_eq!(wire[2 * 4096 + 6], 3);
    assert_eq!(wire[0], 1); // SqlBatch type byte
}

#[test]
fn truncated_body_consumes_nothing_and_is_retryable() {
    let whole = tabular_packet(STATUS_END_OF_MESSAGE, b"hello");
    let mut s = MssqlStream::new();
    s.feed(&whole[..10]); // header plus 2 of the 5 body bytes
    assert!(matches!(s.recv_packet().unwrap_err(), Error::UnexpectedEof));
    assert_eq!(s.rpos, 0);
    // feeding the rest makes the same read succeed from the message start
    s.feed(&whole[10..]);
    let (h, body) = s.recv_packet().unwrap();
    assert_eq!(h.status, STATUS_END_OF_MESSAGE);
    assert_eq!(&body[..], b"hello");
}

#[test]
fn truncation_mid_message_rewinds_to_message_start() {
    // first packet complete but not end-of-message; continuation cut short
    let mut wire = tabular_packet(STATUS_NORMAL, b"abc");
    let second = tabular_packet(STATUS_END_OF_MESSAGE, b"def");
    wire.extend_from_slice(&second[..4]);
    let mut s = MssqlStream::new();
    s.feed(&wire);
    assert!(matches!(s.recv_packet().unwrap_err(), Error::UnexpectedEof));
    assert_eq!(s.rpos, 0);
    s.feed(&second[4..]);
    let (_, body) = s.recv_packet().unwrap();
    assert_eq!(&body[..], b"abcdef");
}

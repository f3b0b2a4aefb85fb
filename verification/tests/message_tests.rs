use tds_stream::errors::Error;
use tds_stream::packet::{PacketType, STATUS_END_OF_MESSAGE};
use tds_stream::stream::MssqlStream;
use tds_stream::tokens::{Message, DONE_MORE};

fn tabular_packet(payload: &[u8]) -> Vec<u8> {
    let len = (payload.len() + 8) as u16;
    let mut v = vec![
        4,
        STATUS_END_OF_MESSAGE,
        (len >> 8) as u8,
        (len & 0xff) as u8,
        0,
        0,
        1,
        0,
    ];
    v.extend_from_slice(payload);
    v
}

fn fed(tokens: &[u8]) -> MssqlStream {
    let mut s = MssqlStream::new();
    s.feed(&tabular_packet(tokens));
    s
}

fn env_change(sub: u8, new_value: &[u8]) -> Vec<u8> {
    let len = (2 + new_value.len()) as u16;
    let mut v = vec![0xE3, (len & 0xff) as u8, (len >> 8) as u8, sub, new_value.len() as u8];
    v.extend_from_slice(new_value);
    v
}

fn done_token(tag: u8, status: u16, rows: u64) -> Vec<u8> {
    let mut v = vec![tag, (status & 0xff) as u8, (status >> 8) as u8, 0, 0];
    v.extend_from_slice(&rows.to_le_bytes());
    v
}

fn col_meta(cols: &[(u8, &[u8])]) -> Vec<u8> {
    let n = cols.len() as u16;
    let mut v = vec![0x81, (n & 0xff) as u8, (n >> 8) as u8];
    for (ty, name) in cols {
        v.push(*ty);
        v.push(name.len() as u8);
        v.extend_from_slice(name);
    }
    v
}

fn row_token(values: &[Option<&[u8]>]) -> Vec<u8> {
    let mut v = vec![0xD1];
    for val in values {
        match val {
            None => v.push(0),
            Some(b) => {
                v.push(1);
                let l = b.len() as u16;
                v.push((l & 0xff) as u8);
                v.push((l >> 8) as u8);
                v.extend_from_slice(b);
            }
        }
    }
    v
}

fn error_token(number: u32, state: u8, class: u8, msg: &[u8]) -> Vec<u8> {
    let len = (6 + msg.len()) as u16;
    let mut v = vec![0xAA, (len & 0xff) as u8, (len >> 8) as u8];
    v.extend_from_slice(&number.to_le_bytes());
    v.push(state);
    v.push(class);
    v.extend_from_slice(msg);
    v
}

#[test]
fn env_change_packet_size_applies_to_next_write_and_read() {
    let mut tokens = env_change(4, b"16");
    tokens.extend_from_slice(&done_token(0xFD, 0, 0));
    let mut s = fed(&tokens);
    assert_eq!(s.packet_size(), 4096);
    let m = s.recv_message().unwrap();
    assert!(matches!(m, Message::Done(_)));
    assert_eq!(s.packet_size(), 16);

    // outbound chunk boundaries now follow the new size: cap is 8 bytes
    s.write_packet(PacketType::SqlBatch, &[9u8; 20]);
    let wire = s.take_write_buffer();
    assert_eq!(wire.len(), 20 + 3 * 8);
    assert_eq!(wire[1], 0);
    assert_eq!(wire[16 + 1], 0);
    assert_eq!(wire[32 + 1], STATUS_END_OF_MESSAGE);

    // inbound length bounds follow it too: a 17-byte packet is now fatal
    let long = tabular_packet(&[0u8; 9]);
    assert_eq!(long.len(), 17);
    s.feed(&long);
    assert!(matches!(
        s.recv_message().unwrap_err(),
        Error::InvalidPacketLength(17)
    ));
}

#[test]
fn env_change_bad_packet_size_text_is_rejected() {
    let mut s = fed(&env_change(4, b"abc"));
    match s.recv_message().unwrap_err() {
        Error::BadPacketSize(text) => assert_eq!(&text[..], b"abc"),
        other => panic!("unexpected error: {:?}", other),
    }
}

#[test]
fn env_change_packet_size_overflow_is_rejected() {
    let mut s = fed(&env_change(4, b"70000"));
    assert!(matches!(
        s.recv_message().unwrap_err(),
        Error::BadPacketSize(_)
    ));
}

#[test]
fn env_change_packet_size_too_small_to_frame_is_rejected() {
    let mut s = fed(&env_change(4, b"8"));
    assert!(matches!(
        s.recv_message().unwrap_err(),
        Error::BadPacketSize(_)
    ));
}

#[test]
fn transaction_lifecycle_descriptor_sequence() {
    let desc: u64 = 0x1122334455667788;
    let mut tokens = env_change(8, &desc.to_le_bytes());
    tokens.extend_from_slice(&col_meta(&[(0x26, b"n")]));
    tokens.extend_from_slice(&row_token(&[Some(b"1")]));
    tokens.extend_from_slice(&done_token(0xFD, 0, 1));
    tokens.extend_from_slice(&env_change(9, &[]));
    tokens.extend_from_slice(&done_token(0xFD, 0, 0));
    let mut s = fed(&tokens);

    assert_eq!(s.transaction_descriptor(), 0);
    let m = s.recv_message().unwrap();
    assert!(matches!(m, Message::Row(_)));
    assert_eq!(s.transaction_descriptor(), desc);
    let m = s.recv_message().unwrap();
    assert!(matches!(m, Message::Done(_)));
    assert_eq!(s.transaction_descriptor(), desc);
    let m = s.recv_message().unwrap();
    assert!(matches!(m, Message::Done(_)));
    assert_eq!(s.transaction_descriptor(), 0);
}

#[test]
fn completion_counting_waits_for_final_done() {
    let mut tokens = done_token(0xFF, DONE_MORE, 1);
    tokens.extend_from_slice(&done_token(0xFF, DONE_MORE, 1));
    tokens.extend_from_slice(&done_token(0xFD, 0, 2));
    let mut s = fed(&tokens);
    s.pending_done_count = 1;
    s.wait_until_ready().unwrap();
    assert_eq!(s.pending_done_count, 0);
    // all three messages were consumed
    assert_eq!(s.rpos, s.rbuf.len());
    assert_eq!(s.resp_body.len(), 0);
}

#[test]
fn done_in_proc_never_decrements() {
    // DoneInProc without the more bit still does not count as terminal
    let mut tokens = done_token(0xFF, 0, 1);
    tokens.extend_from_slice(&done_token(0xFE, 0, 1));
    let mut s = fed(&tokens);
    s.pending_done_count = 1;
    s.wait_until_ready().unwrap();
    assert_eq!(s.pending_done_count, 0);
    // the DoneInProc alone would not have released the wait: it took the
    // DoneProc; a stream holding only DoneInProc runs out of input instead
    let mut s2 = fed(&done_token(0xFF, 0, 1));
    s2.pending_done_count = 1;
    assert!(matches!(
        s2.wait_until_ready().unwrap_err(),
        Error::UnexpectedEof
    ));
    assert_eq!(s2.pending_done_count, 1);
}

#[test]
fn error_short_circuits_and_done_still_drains() {
    let mut tokens = col_meta(&[(0x26, b"a")]);
    tokens.extend_from_slice(&error_token(547, 1, 16, b"constraint violated"));
    tokens.extend_from_slice(&done_token(0xFD, 0, 0));
    let mut s = fed(&tokens);
    s.pending_done_count = 1;

    // the ColMetaData is consumed silently; the Error surfaces as failure
    match s.recv_message().unwrap_err() {
        Error::Server(e) => {
            assert_eq!(e.number, 547);
            assert_eq!(e.state, 1);
            assert_eq!(e.class, 16);
            assert_eq!(&e.message[..], b"constraint violated");
        }
        other => panic!("unexpected error: {:?}", other),
    }
    // the schema side effect did happen
    assert_eq!(s.column_names().len(), 1);
    // and the trailing Done still drains the pending completion
    s.wait_until_ready().unwrap();
    assert_eq!(s.pending_done_count, 0);
}

#[test]
fn schema_isolation_row_keeps_its_values() {
    let mut tokens = col_meta(&[(0x26, b"a"), (0x26, b"b")]);
    tokens.extend_from_slice(&row_token(&[Some(b"xy"), None]));
    tokens.extend_from_slice(&col_meta(&[(0xA7, b"zzz")]));
    tokens.extend_from_slice(&done_token(0xFD, 0, 1));
    let mut s = fed(&tokens);

    let row = match s.recv_message().unwrap() {
        Message::Row(r) => r,
        other => panic!("expected a row, got {:?}", other),
    };
    assert_eq!(row.schema_id, 1);
    assert_eq!(row.values.len(), 2);
    assert_eq!(row.values[0].as_deref(), Some(&b"xy"[..]));
    assert_eq!(row.values[1], None);

    // the next message installs schema B; the already-decoded row is
    // untouched and still names generation 1
    let m = s.recv_message().unwrap();
    assert!(matches!(m, Message::Done(_)));
    assert_eq!(s.schema_id(), 2);
    assert_eq!(s.column_names(), vec![b"zzz".to_vec()]);
    assert_eq!(row.schema_id, 1);
    assert_eq!(row.values[0].as_deref(), Some(&b"xy"[..]));
}

#[test]
fn nbc_row_uses_null_bitmap() {
    let mut tokens = col_meta(&[(0x26, b"a"), (0x26, b"b"), (0x26, b"c")]);
    // bitmap 0b0000_0101: columns 0 and 2 null, column 1 present
    let mut nbc = vec![0xD2, 0b0000_0101];
    nbc.extend_from_slice(&[2, 0]); // little-endian length 2
    nbc.extend_from_slice(b"ok");
    tokens.extend_from_slice(&nbc);
    let mut s = fed(&tokens);
    let row = match s.recv_message().unwrap() {
        Message::Row(r) => r,
        other => panic!("expected a row, got {:?}", other),
    };
    assert_eq!(row.values.len(), 3);
    assert_eq!(row.values[0], None);
    assert_eq!(row.values[1].as_deref(), Some(&b"ok"[..]));
    assert_eq!(row.values[2], None);
}

#[test]
fn info_tokens_are_consumed_silently() {
    let mut tokens = vec![0xAB, 3, 0, 1, 2, 3];
    tokens.extend_from_slice(&done_token(0xFD, 0, 0));
    let mut s = fed(&tokens);
    assert!(matches!(s.recv_message().unwrap(), Message::Done(_)));
}

#[test]
fn passthrough_tokens_carry_bodies_verbatim() {
    let mut tokens = vec![0xAD, 4, 0, 1, 2, 3, 4]; // LoginAck
    tokens.extend_from_slice(&[0x79, 5, 0, 0, 0]); // ReturnStatus = 5
    tokens.extend_from_slice(&[0xAC, 2, 0, 7, 8]); // ReturnValue
    tokens.extend_from_slice(&[0xA9, 2, 0, 1, 0]); // Order
    let mut s = fed(&tokens);
    match s.recv_message().unwrap() {
        Message::LoginAck(b) => assert_eq!(b, vec![1, 2, 3, 4]),
        other => panic!("unexpected message: {:?}", other),
    }
    match s.recv_message().unwrap() {
        Message::ReturnStatus(v) => assert_eq!(v, 5),
        other => panic!("unexpected message: {:?}", other),
    }
    match s.recv_message().unwrap() {
        Message::ReturnValue(b) => assert_eq!(b, vec![7, 8]),
        other => panic!("unexpected message: {:?}", other),
    }
    match s.recv_message().unwrap() {
        Message::Order(b) => assert_eq!(b, vec![1, 0]),
        other => panic!("unexpected message: {:?}", other),
    }
}

#[test]
fn done_fields_decode_little_endian() {
    let mut s = fed(&done_token(0xFD, 0x0011, 258));
    match s.recv_message().unwrap() {
        Message::Done(d) => {
            assert_eq!(d.status, 0x0011);
            assert_eq!(d.affected_rows, 258);
            assert!(d.has_more());
        }
        other => panic!("unexpected message: {:?}", other),
    }
}

#[test]
fn unknown_message_tag_is_fatal() {
    let mut s = fed(&[0x55, 1, 2, 3]);
    assert!(matches!(
        s.recv_message().unwrap_err(),
        Error::UnknownMessageType(0x55)
    ));
}

#[test]
fn truncated_token_is_malformed() {
    let mut s = fed(&[0xFD, 1]);
    assert!(matches!(
        s.recv_message().unwrap_err(),
        Error::MalformedToken(0xFD)
    ));
}

#[test]
fn empty_input_is_transport_eof() {
    let mut s = MssqlStream::new();
    assert!(matches!(
        s.recv_message().unwrap_err(),
        Error::UnexpectedEof
    ));
}

#[test]
fn column_lookup_finds_first_match() {
    let mut tokens = col_meta(&[(1, b"ab"), (2, b"cd"), (3, b"cd")]);
    tokens.extend_from_slice(&done_token(0xFD, 0, 0));
    let mut s = fed(&tokens);
    s.recv_message().unwrap();
    assert_eq!(s.column_index(b"ab"), Some(0));
    assert_eq!(s.column_index(b"cd"), Some(1));
    assert_eq!(s.column_index(b"zz"), None);
    assert_eq!(s.column_names(), vec![b"ab".to_vec(), b"cd".to_vec(), b"cd".to_vec()]);
}

#[test]
fn handle_error_converts_server_error() {
    let mut s = MssqlStream::new();
    let e = tds_stream::errors::ServerError {
        number: 2627,
        state: 1,
        class: 14,
        message: b"duplicate key".to_vec(),
    };
    let r = s.handle_error(e);
    match r.unwrap_err() {
        Error::Server(se) => assert_eq!(se.number, 2627),
        other => panic!("unexpected error: {:?}", other),
    }
}

#[test]
fn message_spans_packets_and_tokens_span_chunks() {
    // one Done token split across two wire packets of one message
    let token = done_token(0xFD, 0, 9);
    let first = &token[..5];
    let second = &token[5..];
    let l1 = (first.len() + 8) as u16;
    let mut wire = vec![4, 0, (l1 >> 8) as u8, (l1 & 0xff) as u8, 0, 0, 1, 0];
    wire.extend_from_slice(first);
    let l2 = (second.len() + 8) as u16;
    wire.extend_from_slice(&[4, 1, (l2 >> 8) as u8, (l2 & 0xff) as u8, 0, 0, 2, 0]);
    wire.extend_from_slice(second);
    let mut s = MssqlStream::new();
    s.feed(&wire);
    match s.recv_message().unwrap() {
        Message::Done(d) => assert_eq!(d.affected_rows, 9),
        other => panic!("unexpected message: {:?}", other),
    }
}

#[test]
fn wait_propagates_error_without_decrement() {
    let mut tokens = done_token(0xFF, DONE_MORE, 1);
    tokens.extend_from_slice(&error_token(8134, 1, 16, b"divide by zero"));
    tokens.extend_from_slice(&done_token(0xFD, 0, 0));
    let mut s = fed(&tokens);
    s.pending_done_count = 1;
    // the DoneInProc is consumed without a decrement, then the server
    // error ends the call with the counter untouched
    match s.wait_until_ready().unwrap_err() {
        Error::Server(e) => assert_eq!(e.number, 8134),
        other => panic!("unexpected error: {:?}", other),
    }
    assert_eq!(s.pending_done_count, 1);
    // the accompanying Done is still buffered and drains on the next call
    s.wait_until_ready().unwrap();
    assert_eq!(s.pending_done_count, 0);
}

#[test]
fn wait_is_a_no_op_when_already_idle() {
    let mut s = fed(&done_token(0xFD, 0, 0));
    s.wait_until_ready().unwrap();
    // nothing was pending, so nothing was read
    assert_eq!(s.rpos, 0);
}

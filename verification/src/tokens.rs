use vstd::prelude::*;

use crate::bufread::{
    copy_range, parse_u16_dec, read_le16, read_le32, read_le64, spec_dec_value, spec_is_dec_u16,
    spec_le16, spec_le32, spec_le64,
};
use crate::errors::{Error, ErrorV, ServerError, ServerErrorV};

verus! {

/// Message-type tag bytes, as they appear on the wire.
pub const TAG_COL_META_DATA: u8 = 0x81;

pub const TAG_ORDER: u8 = 0xA9;

pub const TAG_ERROR: u8 = 0xAA;

pub const TAG_INFO: u8 = 0xAB;

pub const TAG_RETURN_VALUE: u8 = 0xAC;

pub const TAG_LOGIN_ACK: u8 = 0xAD;

pub const TAG_RETURN_STATUS: u8 = 0x79;

pub const TAG_ROW: u8 = 0xD1;

pub const TAG_NBC_ROW: u8 = 0xD2;

pub const TAG_ENV_CHANGE: u8 = 0xE3;

pub const TAG_DONE: u8 = 0xFD;

pub const TAG_DONE_PROC: u8 = 0xFE;

pub const TAG_DONE_IN_PROC: u8 = 0xFF;

/// Environment-change sub-type bytes.
pub const ENV_PACKET_SIZE: u8 = 4;

pub const ENV_BEGIN_TXN: u8 = 8;

pub const ENV_COMMIT_TXN: u8 = 9;

pub const ENV_ROLLBACK_TXN: u8 = 10;

/// Status bit on a Done-family token: more results follow.
pub const DONE_MORE: u16 = 0x0001;

/// One column of the current result set: its declared type tag and its
/// raw name bytes.
#[derive(Debug)]
pub struct MssqlColumn {
    pub type_tag: u8,
    pub name: Vec<u8>,
}

pub struct ColumnV {
    pub type_tag: u8,
    pub name: Seq<u8>,
}

impl View for MssqlColumn {
    type V = ColumnV;

    open spec fn view(&self) -> ColumnV {
        ColumnV { type_tag: self.type_tag, name: self.name@ }
    }
}

pub open spec fn spec_columns_view(cs: Seq<MssqlColumn>) -> Seq<ColumnV> {
    cs.map_values(|c: MssqlColumn| c@)
}

/// A Done-family token: completion status bits, the current command, and
/// the affected row count.
#[derive(Clone, Copy, PartialEq, Eq, Structural, Debug)]
pub struct Done {
    pub status: u16,
    pub cur_cmd: u16,
    pub affected_rows: u64,
}

impl Done {
    /// True when the status carries the more-results-follow bit, in which
    /// case this token does not count as a terminal completion.
    pub open spec fn spec_has_more(self) -> bool {
        self.status & DONE_MORE == DONE_MORE
    }

    pub fn has_more(&self) -> (r: bool)
        ensures
            r == self.spec_has_more(),
    {
        self.status & DONE_MORE == DONE_MORE
    }
}

/// A decoded row: the id of the schema it was decoded against and one
/// decoded value (or null) per column of that schema. The values are
/// owned copies; installing a later schema cannot reach back into them.
#[derive(Debug)]
pub struct Row {
    pub schema_id: u64,
    pub values: Vec<Option<Vec<u8>>>,
}

pub struct RowV {
    pub schema_id: u64,
    pub values: Seq<Option<Seq<u8>>>,
}

pub open spec fn spec_value_view(v: Option<Vec<u8>>) -> Option<Seq<u8>> {
    match v {
        Some(b) => Some(b@),
        None => None,
    }
}

pub open spec fn spec_values_view(vs: Seq<Option<Vec<u8>>>) -> Seq<Option<Seq<u8>>> {
    vs.map_values(|v: Option<Vec<u8>>| spec_value_view(v))
}

impl View for Row {
    type V = RowV;

    open spec fn view(&self) -> RowV {
        RowV { schema_id: self.schema_id, values: spec_values_view(self.values@) }
    }
}

/// A caller-visible message: everything the decoder surfaces rather than
/// consumes. `LoginAck`, `ReturnValue` and `Order` carry their raw token
/// bodies verbatim.
#[derive(Debug)]
pub enum Message {
    Row(Row),
    LoginAck(Vec<u8>),
    ReturnStatus(u32),
    ReturnValue(Vec<u8>),
    Done(Done),
    DoneInProc(Done),
    DoneProc(Done),
    Order(Vec<u8>),
}

pub enum MessageV {
    Row(RowV),
    LoginAck(Seq<u8>),
    ReturnStatus(u32),
    ReturnValue(Seq<u8>),
    Done(Done),
    DoneInProc(Done),
    DoneProc(Done),
    Order(Seq<u8>),
}

impl View for Message {
    type V = MessageV;

    open spec fn view(&self) -> MessageV {
        match self {
            Message::Row(r) => MessageV::Row(r@),
            Message::LoginAck(b) => MessageV::LoginAck(b@),
            Message::ReturnStatus(v) => MessageV::ReturnStatus(*v),
            Message::ReturnValue(b) => MessageV::ReturnValue(b@),
            Message::Done(d) => MessageV::Done(*d),
            Message::DoneInProc(d) => MessageV::DoneInProc(*d),
            Message::DoneProc(d) => MessageV::DoneProc(*d),
            Message::Order(b) => MessageV::Order(b@),
        }
    }
}

/// The session state that decoding evolves: the negotiated packet size,
/// the active transaction descriptor, and the cached column schema with
/// its generation id.
pub struct Session {
    pub packet_size: u16,
    pub transaction_descriptor: u64,
    pub columns: Vec<MssqlColumn>,
    pub schema_id: u64,
}

pub struct SessionView {
    pub packet_size: u16,
    pub transaction_descriptor: u64,
    pub columns: Seq<ColumnV>,
    pub schema_id: u64,
}

impl View for Session {
    type V = SessionView;

    open spec fn view(&self) -> SessionView {
        SessionView {
            packet_size: self.packet_size,
            transaction_descriptor: self.transaction_descriptor,
            columns: spec_columns_view(self.columns@),
            schema_id: self.schema_id,
        }
    }
}

/// The schema generation that follows `id`; it saturates rather than wrap,
/// so ids never repeat.
pub open spec fn spec_next_schema_id(id: u64) -> u64 {
    if id == u64::MAX {
        id
    } else {
        (id + 1) as u64
    }
}

/// Parses `n` column descriptors starting at `pos`: type tag, name
/// length, name bytes, each in turn. Yields the columns and the position
/// just past them, or nothing when the buffer runs out first.
pub open spec fn spec_parse_columns(s: Seq<u8>, pos: int, n: int) -> Option<(Seq<ColumnV>, int)>
    decreases n,
{
    if n <= 0 {
        Some((Seq::empty(), pos))
    } else if pos < 0 || pos + 2 > s.len() {
        None
    } else {
        let name_len = s[pos + 1] as int;
        if pos + 2 + name_len > s.len() {
            None
        } else {
            match spec_parse_columns(s, pos + 2 + name_len, n - 1) {
                Some(t) => Some(
                    (
                        seq![
                            ColumnV {
                                type_tag: s[pos],
                                name: s.subrange(pos + 2, pos + 2 + name_len),
                            },
                        ] + t.0,
                        t.1,
                    ),
                ),
                None => None,
            }
        }
    }
}

/// Parses `n` plain row values starting at `pos`: a presence byte (0 for
/// null, 1 for present), then for present values a 16-bit little-endian
/// length and that many bytes. Any other presence byte is malformed.
pub open spec fn spec_parse_values(s: Seq<u8>, pos: int, n: int) -> Option<
    (Seq<Option<Seq<u8>>>, int),
>
    decreases n,
{
    if n <= 0 {
        Some((Seq::empty(), pos))
    } else if pos < 0 || pos + 1 > s.len() {
        None
    } else if s[pos] == 0 {
        match spec_parse_values(s, pos + 1, n - 1) {
            Some(t) => Some((seq![Option::<Seq<u8>>::None] + t.0, t.1)),
            None => None,
        }
    } else if s[pos] == 1 {
        if pos + 3 > s.len() {
            None
        } else {
            let vlen = spec_le16(s, pos + 1) as int;
            if pos + 3 + vlen > s.len() {
                None
            } else {
                match spec_parse_values(s, pos + 3 + vlen, n - 1) {
                    Some(t) => Some(
                        (seq![Some(s.subrange(pos + 3, pos + 3 + vlen))] + t.0, t.1),
                    ),
                    None => None,
                }
            }
        }
    } else {
        None
    }
}

/// In a compressed row, column `i` is null exactly when bit `i % 8` of
/// bitmap byte `i / 8` is set.
pub open spec fn spec_nbc_null(s: Seq<u8>, base: int, i: int) -> bool {
    (s[base + i / 8] >> ((i % 8) as u8)) & 1 == 1
}

/// Parses the values of a compressed row for columns `i..n`: columns whose
/// bitmap bit is set are null and occupy no bytes; the rest carry a 16-bit
/// little-endian length and that many bytes.
pub open spec fn spec_parse_nbc_values(s: Seq<u8>, base: int, pos: int, i: int, n: int) -> Option<
    (Seq<Option<Seq<u8>>>, int),
>
    decreases n - i,
{
    if i >= n {
        Some((Seq::empty(), pos))
    } else if spec_nbc_null(s, base, i) {
        match spec_parse_nbc_values(s, base, pos, i + 1, n) {
            Some(t) => Some((seq![Option::<Seq<u8>>::None] + t.0, t.1)),
            None => None,
        }
    } else if pos < 0 || pos + 2 > s.len() {
        None
    } else {
        let vlen = spec_le16(s, pos) as int;
        if pos + 2 + vlen > s.len() {
            None
        } else {
            match spec_parse_nbc_values(s, base, pos + 2 + vlen, i + 1, n) {
                Some(t) => Some((seq![Some(s.subrange(pos + 2, pos + 2 + vlen))] + t.0, t.1)),
                None => None,
            }
        }
    }
}

/// What one decode step does, stated over the message buffer alone: it
/// either consumes a side-effecting token and continues with an evolved
/// session, consumes a token and emits a caller-visible message, or fails,
/// consuming the token only for a server-reported error.
pub enum StepRes {
    Continue(SessionView, int),
    Emit(MessageV, SessionView, int),
    Fail(ErrorV, int),
}

/// Decodes exactly one token from the front of `resp` against session
/// state `st`.
///
/// Environment changes never surface: begin-transaction installs the
/// descriptor, commit and rollback clear it, packet-size parses its ASCII
/// decimal new value (a value that does not parse, does not fit 16 bits,
/// or cannot even hold one header is rejected with the offending text),
/// and any other sub-type is skipped. Info tokens are skipped. Column
/// metadata replaces the schema wholesale and advances the schema
/// generation. Row tokens decode against the current schema and surface.
/// Done-family, login-acknowledgement, return-status, return-value and
/// order tokens surface verbatim. A server error token fails the decode,
/// consuming the token. Anything else is fatal desynchronization,
/// consuming nothing.
pub open spec fn spec_step(resp: Seq<u8>, st: SessionView) -> StepRes
    recommends
        resp.len() > 0,
{
    let tag = resp[0];
    if tag == TAG_ENV_CHANGE {
        if resp.len() < 3 {
            StepRes::Fail(ErrorV::MalformedToken(tag), 0)
        } else {
            let len = spec_le16(resp, 1) as int;
            if len < 1 || 3 + len > resp.len() {
                StepRes::Fail(ErrorV::MalformedToken(tag), 0)
            } else {
                let consumed = 3 + len;
                let sub = resp[3];
                if sub == ENV_PACKET_SIZE {
                    if len < 2 || resp[4] > len - 2 {
                        StepRes::Fail(ErrorV::MalformedToken(tag), 0)
                    } else {
                        let text = resp.subrange(5, 5 + resp[4]);
                        if spec_is_dec_u16(text) && spec_dec_value(text) > 8 {
                            StepRes::Continue(
                                SessionView { packet_size: spec_dec_value(text) as u16, ..st },
                                consumed,
                            )
                        } else {
                            StepRes::Fail(ErrorV::BadPacketSize(text), 0)
                        }
                    }
                } else if sub == ENV_BEGIN_TXN {
                    if len < 10 || resp[4] != 8 {
                        StepRes::Fail(ErrorV::MalformedToken(tag), 0)
                    } else {
                        StepRes::Continue(
                            SessionView { transaction_descriptor: spec_le64(resp, 5), ..st },
                            consumed,
                        )
                    }
                } else if sub == ENV_COMMIT_TXN || sub == ENV_ROLLBACK_TXN {
                    StepRes::Continue(SessionView { transaction_descriptor: 0, ..st }, consumed)
                } else {
                    StepRes::Continue(st, consumed)
                }
            }
        }
    } else if tag == TAG_INFO {
        if resp.len() < 3 {
            StepRes::Fail(ErrorV::MalformedToken(tag), 0)
        } else {
            let len = spec_le16(resp, 1) as int;
            if 3 + len > resp.len() {
                StepRes::Fail(ErrorV::MalformedToken(tag), 0)
            } else {
                StepRes::Continue(st, 3 + len)
            }
        }
    } else if tag == TAG_COL_META_DATA {
        if resp.len() < 3 {
            StepRes::Fail(ErrorV::MalformedToken(tag), 0)
        } else {
            let n = spec_le16(resp, 1) as int;
            match spec_parse_columns(resp, 3, n) {
                Some(t) => StepRes::Continue(
                    SessionView {
                        columns: t.0,
                        schema_id: spec_next_schema_id(st.schema_id),
                        ..st
                    },
                    t.1,
                ),
                None => StepRes::Fail(ErrorV::MalformedToken(tag), 0),
            }
        }
    } else if tag == TAG_ROW {
        match spec_parse_values(resp, 1, st.columns.len() as int) {
            Some(t) => StepRes::Emit(
                MessageV::Row(RowV { schema_id: st.schema_id, values: t.0 }),
                st,
                t.1,
            ),
            None => StepRes::Fail(ErrorV::MalformedToken(tag), 0),
        }
    } else if tag == TAG_NBC_ROW {
        let n = st.columns.len() as int;
        let blen = (n + 7) / 8;
        if 1 + blen > resp.len() {
            StepRes::Fail(ErrorV::MalformedToken(tag), 0)
        } else {
            match spec_parse_nbc_values(resp, 1, 1 + blen, 0, n) {
                Some(t) => StepRes::Emit(
                    MessageV::Row(RowV { schema_id: st.schema_id, values: t.0 }),
                    st,
                    t.1,
                ),
                None => StepRes::Fail(ErrorV::MalformedToken(tag), 0),
            }
        }
    } else if tag == TAG_LOGIN_ACK || tag == TAG_RETURN_VALUE || tag == TAG_ORDER {
        if resp.len() < 3 {
            StepRes::Fail(ErrorV::MalformedToken(tag), 0)
        } else {
            let len = spec_le16(resp, 1) as int;
            if 3 + len > resp.len() {
                StepRes::Fail(ErrorV::MalformedToken(tag), 0)
            } else {
                let body = resp.subrange(3, 3 + len);
                let m = if tag == TAG_LOGIN_ACK {
                    MessageV::LoginAck(body)
                } else if tag == TAG_RETURN_VALUE {
                    MessageV::ReturnValue(body)
                } else {
                    MessageV::Order(body)
                };
                StepRes::Emit(m, st, 3 + len)
            }
        }
    } else if tag == TAG_RETURN_STATUS {
        if resp.len() < 5 {
            StepRes::Fail(ErrorV::MalformedToken(tag), 0)
        } else {
            StepRes::Emit(MessageV::ReturnStatus(spec_le32(resp, 1)), st, 5)
        }
    } else if tag == TAG_DONE || tag == TAG_DONE_PROC || tag == TAG_DONE_IN_PROC {
        if resp.len() < 13 {
            StepRes::Fail(ErrorV::MalformedToken(tag), 0)
        } else {
            let d = Done {
                status: spec_le16(resp, 1),
                cur_cmd: spec_le16(resp, 3),
                affected_rows: spec_le64(resp, 5),
            };
            let m = if tag == TAG_DONE {
                MessageV::Done(d)
            } else if tag == TAG_DONE_PROC {
                MessageV::DoneProc(d)
            } else {
                MessageV::DoneInProc(d)
            };
            StepRes::Emit(m, st, 13)
        }
    } else if tag == TAG_ERROR {
        if resp.len() < 3 {
            StepRes::Fail(ErrorV::MalformedToken(tag), 0)
        } else {
            let len = spec_le16(resp, 1) as int;
            if len < 6 || 3 + len > resp.len() {
                StepRes::Fail(ErrorV::MalformedToken(tag), 0)
            } else {
                StepRes::Fail(
                    ErrorV::Server(
                        ServerErrorV {
                            number: spec_le32(resp, 3),
                            state: resp[7],
                            class: resp[8],
                            message: resp.subrange(9, 3 + len),
                        },
                    ),
                    3 + len,
                )
            }
        }
    } else {
        StepRes::Fail(ErrorV::UnknownMessageType(tag), 0)
    }
}

/// Column parsing lands between its start and the end of the buffer and
/// yields one descriptor per requested column.
pub proof fn lemma_parse_columns_bounds(s: Seq<u8>, pos: int, n: int)
    requires
        0 <= pos <= s.len(),
    ensures
        match spec_parse_columns(s, pos, n) {
            Some(t) => pos <= t.1 <= s.len() && t.0.len() == if n >= 0 {
                n
            } else {
                0
            },
            None => true,
        },
    decreases n,
{
    if n > 0 && pos + 2 <= s.len() {
        let name_len = s[pos + 1] as int;
        if pos + 2 + name_len <= s.len() {
            lemma_parse_columns_bounds(s, pos + 2 + name_len, n - 1);
        }
    }
}

/// Plain row-value parsing lands between its start and the end of the
/// buffer and yields one value per requested column.
pub proof fn lemma_parse_values_bounds(s: Seq<u8>, pos: int, n: int)
    requires
        0 <= pos <= s.len(),
    ensures
        match spec_parse_values(s, pos, n) {
            Some(t) => pos <= t.1 <= s.len() && t.0.len() == if n >= 0 {
                n
            } else {
                0
            },
            None => true,
        },
    decreases n,
{
    if n > 0 && pos + 1 <= s.len() {
        if s[pos] == 0 {
            lemma_parse_values_bounds(s, pos + 1, n - 1);
        } else if s[pos] == 1 && pos + 3 <= s.len() {
            let vlen = spec_le16(s, pos + 1) as int;
            if pos + 3 + vlen <= s.len() {
                lemma_parse_values_bounds(s, pos + 3 + vlen, n - 1);
            }
        }
    }
}

/// Compressed row-value parsing lands between its start and the end of
/// the buffer and yields one value per remaining column.
pub proof fn lemma_parse_nbc_values_bounds(s: Seq<u8>, base: int, pos: int, i: int, n: int)
    requires
        0 <= pos <= s.len(),
    ensures
        match spec_parse_nbc_values(s, base, pos, i, n) {
            Some(t) => pos <= t.1 <= s.len() && t.0.len() == if n >= i {
                n - i
            } else {
                0
            },
            None => true,
        },
    decreases n - i,
{
    if i < n {
        if spec_nbc_null(s, base, i) {
            lemma_parse_nbc_values_bounds(s, base, pos, i + 1, n);
        } else if pos + 2 <= s.len() {
            let vlen = spec_le16(s, pos) as int;
            if pos + 2 + vlen <= s.len() {
                lemma_parse_nbc_values_bounds(s, base, pos + 2 + vlen, i + 1, n);
            }
        }
    }
}

/// A decode step always consumes at least the token's first byte when it
/// continues or emits, never more than the buffer, and a failing step
/// consumes at most the buffer.
pub proof fn lemma_step_bounds(resp: Seq<u8>, st: SessionView)
    requires
        resp.len() > 0,
    ensures
        match spec_step(resp, st) {
            StepRes::Continue(_, n) => 1 <= n <= resp.len(),
            StepRes::Emit(_, _, n) => 1 <= n <= resp.len(),
            StepRes::Fail(_, n) => 0 <= n <= resp.len(),
        },
{
    let tag = resp[0];
    if tag == TAG_COL_META_DATA && resp.len() >= 3 {
        lemma_parse_columns_bounds(resp, 3, spec_le16(resp, 1) as int);
    }
    if tag == TAG_ROW {
        lemma_parse_values_bounds(resp, 1, st.columns.len() as int);
    }
    if tag == TAG_NBC_ROW {
        let n = st.columns.len() as int;
        let blen = (n + 7) / 8;
        if 1 + blen <= resp.len() {
            lemma_parse_nbc_values_bounds(resp, 1, 1 + blen, 0, n);
        }
    }
}

/// Parses `n` column descriptors out of `s` starting at `start`, exactly
/// as `spec_parse_columns` reads them.
pub fn parse_columns(s: &[u8], start: usize, n: usize) -> (r: Option<(Vec<MssqlColumn>, usize)>)
    requires
        start <= s@.len(),
    ensures
        match spec_parse_columns(s@, start as int, n as int) {
            Some(t) => r matches Some(p) && spec_columns_view(p.0@) == t.0 && p.1 as int == t.1,
            None => r is None,
        },
{
    let len = s.len();
    let mut cols: Vec<MssqlColumn> = Vec::new();
    let mut pos = start;
    let mut i: usize = 0;
    while i < n
        invariant
            i <= n,
            start <= pos <= len,
            len == s@.len(),
            spec_parse_columns(s@, start as int, n as int) == (match spec_parse_columns(
                s@,
                pos as int,
                n as int - i,
            ) {
                Some(t) => Some::<(Seq<ColumnV>, int)>((spec_columns_view(cols@) + t.0, t.1)),
                None => None::<(Seq<ColumnV>, int)>,
            }),
        decreases n - i,
    {
        if len - pos < 2 {
            return None;
        }
        let tt = s[pos];
        let nl = s[pos + 1] as usize;
        if len - (pos + 2) < nl {
            return None;
        }
        let name = copy_range(s, pos + 2, pos + 2 + nl);
        let col = MssqlColumn { type_tag: tt, name };
        proof {
            let cv = ColumnV { type_tag: s@[pos as int], name: s@.subrange(pos as int + 2, pos as int + 2 + nl) };
            assert(col@ == cv);
            assert(spec_columns_view(cols@.push(col)) =~= spec_columns_view(cols@) + seq![cv]);
            match spec_parse_columns(s@, pos as int + 2 + nl, n as int - i - 1) {
                Some(t) => {
                    assert((spec_columns_view(cols@) + seq![cv]) + t.0 =~= spec_columns_view(
                        cols@,
                    ) + (seq![cv] + t.0));
                },
                None => {},
            }
        }
        cols.push(col);
        pos = pos + 2 + nl;
        i = i + 1;
    }
    proof {
        assert(spec_columns_view(cols@) + Seq::<ColumnV>::empty() =~= spec_columns_view(cols@));
    }
    Some((cols, pos))
}

/// Parses `n` plain row values out of `s` starting at `start`, exactly as
/// `spec_parse_values` reads them.
pub fn parse_values(s: &[u8], start: usize, n: usize) -> (r: Option<(Vec<Option<Vec<u8>>>, usize)>)
    requires
        start <= s@.len(),
    ensures
        match spec_parse_values(s@, start as int, n as int) {
            Some(t) => r matches Some(p) && spec_values_view(p.0@) == t.0 && p.1 as int == t.1,
            None => r is None,
        },
{
    let len = s.len();
    let mut vals: Vec<Option<Vec<u8>>> = Vec::new();
    let mut pos = start;
    let mut i: usize = 0;
    while i < n
        invariant
            i <= n,
            start <= pos <= len,
            len == s@.len(),
            spec_parse_values(s@, start as int, n as int) == (match spec_parse_values(
                s@,
                pos as int,
                n as int - i,
            ) {
                Some(t) => Some::<(Seq<Option<Seq<u8>>>, int)>(
                    (spec_values_view(vals@) + t.0, t.1),
                ),
                None => None::<(Seq<Option<Seq<u8>>>, int)>,
            }),
        decreases n - i,
    {
        if len - pos < 1 {
            return None;
        }
        let flag = s[pos];
        if flag == 0 {
            let v: Option<Vec<u8>> = None;
            proof {
                assert(spec_values_view(vals@.push(v)) =~= spec_values_view(vals@) + seq![
                    Option::<Seq<u8>>::None,
                ]);
                match spec_parse_values(s@, pos as int + 1, n as int - i - 1) {
                    Some(t) => {
                        assert((spec_values_view(vals@) + seq![Option::<Seq<u8>>::None]) + t.0
                            =~= spec_values_view(vals@) + (seq![Option::<Seq<u8>>::None] + t.0));
                    },
                    None => {},
                }
            }
            vals.push(v);
            pos = pos + 1;
            i = i + 1;
        } else if flag == 1 {
            if len - pos < 3 {
                return None;
            }
            let vlen = read_le16(s, pos + 1) as usize;
            if len - (pos + 3) < vlen {
                return None;
            }
            let body = copy_range(s, pos + 3, pos + 3 + vlen);
            let v: Option<Vec<u8>> = Some(body);
            proof {
                let bv = Some(s@.subrange(pos as int + 3, pos as int + 3 + vlen));
                assert(spec_value_view(v) == bv);
                assert(spec_values_view(vals@.push(v)) =~= spec_values_view(vals@) + seq![bv]);
                match spec_parse_values(s@, pos as int + 3 + vlen, n as int - i - 1) {
                    Some(t) => {
                        assert((spec_values_view(vals@) + seq![bv]) + t.0 =~= spec_values_view(
                            vals@,
                        ) + (seq![bv] + t.0));
                    },
                    None => {},
                }
            }
            vals.push(v);
            pos = pos + 3 + vlen;
            i = i + 1;
        } else {
            return None;
        }
    }
    proof {
        assert(spec_values_view(vals@) + Seq::<Option<Seq<u8>>>::empty() =~= spec_values_view(
            vals@,
        ));
    }
    Some((vals, pos))
}

/// Parses the values of a compressed row out of `s`, with the null bitmap
/// at `base` covering `n` columns, exactly as `spec_parse_nbc_values`
/// reads them.
pub fn parse_nbc_values(s: &[u8], base: usize, start: usize, n: usize) -> (r: Option<
    (Vec<Option<Vec<u8>>>, usize),
>)
    requires
        base + (n + 7) / 8 <= start,
        start <= s@.len(),
    ensures
        match spec_parse_nbc_values(s@, base as int, start as int, 0, n as int) {
            Some(t) => r matches Some(p) && spec_values_view(p.0@) == t.0 && p.1 as int == t.1,
            None => r is None,
        },
{
    let len = s.len();
    let mut vals: Vec<Option<Vec<u8>>> = Vec::new();
    let mut pos = start;
    let mut i: usize = 0;
    while i < n
        invariant
            i <= n,
            start <= pos <= len,
            len == s@.len(),
            base + (n + 7) / 8 <= start,
            spec_parse_nbc_values(s@, base as int, start as int, 0, n as int) == (match
                spec_parse_nbc_values(s@, base as int, pos as int, i as int, n as int) {
                Some(t) => Some::<(Seq<Option<Seq<u8>>>, int)>(
                    (spec_values_view(vals@) + t.0, t.1),
                ),
                None => None::<(Seq<Option<Seq<u8>>>, int)>,
            }),
        decreases n - i,
    {
        assert(base + i / 8 < len);
        let bit = (s[base + i / 8] >> ((i % 8) as u8)) & 1;
        if bit == 1 {
            assert(spec_nbc_null(s@, base as int, i as int));
            let v: Option<Vec<u8>> = None;
            proof {
                assert(spec_values_view(vals@.push(v)) =~= spec_values_view(vals@) + seq![
                    Option::<Seq<u8>>::None,
                ]);
                match spec_parse_nbc_values(s@, base as int, pos as int, i as int + 1, n as int) {
                    Some(t) => {
                        assert((spec_values_view(vals@) + seq![Option::<Seq<u8>>::None]) + t.0
                            =~= spec_values_view(vals@) + (seq![Option::<Seq<u8>>::None] + t.0));
                    },
                    None => {},
                }
            }
            vals.push(v);
            i = i + 1;
        } else {
            assert(!spec_nbc_null(s@, base as int, i as int));
            if len - pos < 2 {
                return None;
            }
            let vlen = read_le16(s, pos) as usize;
            if len - (pos + 2) < vlen {
                return None;
            }
            let body = copy_range(s, pos + 2, pos + 2 + vlen);
            let v: Option<Vec<u8>> = Some(body);
            proof {
                let bv = Some(s@.subrange(pos as int + 2, pos as int + 2 + vlen));
                assert(spec_value_view(v) == bv);
                assert(spec_values_view(vals@.push(v)) =~= spec_values_view(vals@) + seq![bv]);
                match spec_parse_nbc_values(
                    s@,
                    base as int,
                    pos as int + 2 + vlen,
                    i as int + 1,
                    n as int,
                ) {
                    Some(t) => {
                        assert((spec_values_view(vals@) + seq![bv]) + t.0 =~= spec_values_view(
                            vals@,
                        ) + (seq![bv] + t.0));
                    },
                    None => {},
                }
            }
            vals.push(v);
            pos = pos + 2 + vlen;
            i = i + 1;
        }
    }
    proof {
        assert(spec_values_view(vals@) + Seq::<Option<Seq<u8>>>::empty() =~= spec_values_view(
            vals@,
        ));
    }
    Some((vals, pos))
}

/// What one executable decode step did: consumed a side-effecting token,
/// consumed a token and produced a message, or failed.
pub enum StepOutcome {
    Next(usize),
    Emit(Message, usize),
    Fail(Error, usize),
}

/// Decodes exactly one token from the front of `resp`, evolving `sess` and
/// behaving exactly as `spec_step` says.
pub fn decode_step(resp: &[u8], sess: &mut Session) -> (r: StepOutcome)
    requires
        resp@.len() > 0,
        old(sess)@.columns.len() <= 0xFFFF,
    ensures
        final(sess)@.columns.len() <= 0xFFFF,
        ({
            let res = spec_step(resp@, old(sess)@);
            match r {
                StepOutcome::Next(n) => res == StepRes::Continue(final(sess)@, n as int),
                StepOutcome::Emit(m, n) => res == StepRes::Emit(m@, final(sess)@, n as int)
                    && final(sess)@ == old(sess)@,
                StepOutcome::Fail(e, n) => res == StepRes::Fail(e@, n as int) && final(sess)@
                    == old(sess)@,
            }
        }),
{
    let rlen = resp.len();
    let tag = resp[0];
    if tag == TAG_ENV_CHANGE {
        if rlen < 3 {
            return StepOutcome::Fail(Error::MalformedToken(tag), 0);
        }
        let len = read_le16(resp, 1) as usize;
        if len < 1 || rlen - 3 < len {
            return StepOutcome::Fail(Error::MalformedToken(tag), 0);
        }
        let consumed = 3 + len;
        let sub = resp[3];
        if sub == ENV_PACKET_SIZE {
            if len < 2 || resp[4] as usize > len - 2 {
                return StepOutcome::Fail(Error::MalformedToken(tag), 0);
            }
            let vl = resp[4] as usize;
            let text = copy_range(resp, 5, 5 + vl);
            match parse_u16_dec(text.as_slice()) {
                Some(v) => {
                    if v > 8 {
                        sess.packet_size = v;
                        StepOutcome::Next(consumed)
                    } else {
                        StepOutcome::Fail(Error::BadPacketSize(text), 0)
                    }
                },
                None => StepOutcome::Fail(Error::BadPacketSize(text), 0),
            }
        } else if sub == ENV_BEGIN_TXN {
            if len < 10 || resp[4] != 8 {
                return StepOutcome::Fail(Error::MalformedToken(tag), 0);
            }
            sess.transaction_descriptor = read_le64(resp, 5);
            StepOutcome::Next(consumed)
        } else if sub == ENV_COMMIT_TXN || sub == ENV_ROLLBACK_TXN {
            sess.transaction_descriptor = 0;
            StepOutcome::Next(consumed)
        } else {
            StepOutcome::Next(consumed)
        }
    } else if tag == TAG_INFO {
        if rlen < 3 {
            return StepOutcome::Fail(Error::MalformedToken(tag), 0);
        }
        let len = read_le16(resp, 1) as usize;
        if rlen - 3 < len {
            return StepOutcome::Fail(Error::MalformedToken(tag), 0);
        }
        StepOutcome::Next(3 + len)
    } else if tag == TAG_COL_META_DATA {
        if rlen < 3 {
            return StepOutcome::Fail(Error::MalformedToken(tag), 0);
        }
        let n = read_le16(resp, 1) as usize;
        match parse_columns(resp, 3, n) {
            Some(p) => {
                proof {
                    lemma_parse_columns_bounds(resp@, 3, n as int);
                }
                let (cols, end) = p;
                sess.columns = cols;
                sess.schema_id = if sess.schema_id == u64::MAX {
                    sess.schema_id
                } else {
                    sess.schema_id + 1
                };
                StepOutcome::Next(end)
            },
            None => StepOutcome::Fail(Error::MalformedToken(tag), 0),
        }
    } else if tag == TAG_ROW {
        let n = sess.columns.len();
        match parse_values(resp, 1, n) {
            Some(p) => {
                let (vals, end) = p;
                StepOutcome::Emit(
                    Message::Row(Row { schema_id: sess.schema_id, values: vals }),
                    end,
                )
            },
            None => StepOutcome::Fail(Error::MalformedToken(tag), 0),
        }
    } else if tag == TAG_NBC_ROW {
        let n = sess.columns.len();
        let blen = (n + 7) / 8;
        if rlen - 1 < blen {
            return StepOutcome::Fail(Error::MalformedToken(tag), 0);
        }
        match parse_nbc_values(resp, 1, 1 + blen, n) {
            Some(p) => {
                let (vals, end) = p;
                StepOutcome::Emit(
                    Message::Row(Row { schema_id: sess.schema_id, values: vals }),
                    end,
                )
            },
            None => StepOutcome::Fail(Error::MalformedToken(tag), 0),
        }
    } else if tag == TAG_LOGIN_ACK || tag == TAG_RETURN_VALUE || tag == TAG_ORDER {
        if rlen < 3 {
            return StepOutcome::Fail(Error::MalformedToken(tag), 0);
        }
        let len = read_le16(resp, 1) as usize;
        if rlen - 3 < len {
            return StepOutcome::Fail(Error::MalformedToken(tag), 0);
        }
        let body = copy_range(resp, 3, 3 + len);
        let m = if tag == TAG_LOGIN_ACK {
            Message::LoginAck(body)
        } else if tag == TAG_RETURN_VALUE {
            Message::ReturnValue(body)
        } else {
            Message::Order(body)
        };
        StepOutcome::Emit(m, 3 + len)
    } else if tag == TAG_RETURN_STATUS {
        if rlen < 5 {
            return StepOutcome::Fail(Error::MalformedToken(tag), 0);
        }
        StepOutcome::Emit(Message::ReturnStatus(read_le32(resp, 1)), 5)
    } else if tag == TAG_DONE || tag == TAG_DONE_PROC || tag == TAG_DONE_IN_PROC {
        if rlen < 13 {
            return StepOutcome::Fail(Error::MalformedToken(tag), 0);
        }
        let d = Done {
            status: read_le16(resp, 1),
            cur_cmd: read_le16(resp, 3),
            affected_rows: read_le64(resp, 5),
        };
        let m = if tag == TAG_DONE {
            Message::Done(d)
        } else if tag == TAG_DONE_PROC {
            Message::DoneProc(d)
        } else {
            Message::DoneInProc(d)
        };
        StepOutcome::Emit(m, 13)
    } else if tag == TAG_ERROR {
        if rlen < 3 {
            return StepOutcome::Fail(Error::MalformedToken(tag), 0);
        }
        let len = read_le16(resp, 1) as usize;
        if len < 6 || rlen - 3 < len {
            return StepOutcome::Fail(Error::MalformedToken(tag), 0);
        }
        StepOutcome::Fail(
            Error::Server(
                ServerError {
                    number: read_le32(resp, 3),
                    state: resp[7],
                    class: resp[8],
                    message: copy_range(resp, 9, 3 + len),
                },
            ),
            3 + len,
        )
    } else {
        StepOutcome::Fail(Error::UnknownMessageType(tag), 0)
    }
}

/// A well-formed packet-size environment change installs its decimal
/// value as the negotiated packet size in the very next session state --
/// so the next outbound write chunks by it and the next inbound read
/// bounds by it -- touches nothing else, and surfaces no message.
pub proof fn lemma_env_packet_size_updates(resp: Seq<u8>, st: SessionView)
    requires
        resp.len() >= 5,
        resp[0] == TAG_ENV_CHANGE,
        resp[3] == ENV_PACKET_SIZE,
        ({
            let len = spec_le16(resp, 1) as int;
            2 <= len && 3 + len <= resp.len() && resp[4] <= len - 2 && spec_is_dec_u16(
                resp.subrange(5, 5 + resp[4]),
            ) && spec_dec_value(resp.subrange(5, 5 + resp[4])) > 8
        }),
    ensures
        ({
            let len = spec_le16(resp, 1) as int;
            let text = resp.subrange(5, 5 + resp[4]);
            spec_step(resp, st) == StepRes::Continue(
                (SessionView { packet_size: spec_dec_value(text) as u16, ..st }),
                3 + len,
            )
        }),
{
}

/// A well-formed begin-transaction environment change installs the
/// transaction descriptor carried in its new value, touches nothing else,
/// and surfaces no message.
pub proof fn lemma_env_begin_transaction(resp: Seq<u8>, st: SessionView)
    requires
        resp.len() >= 5,
        resp[0] == TAG_ENV_CHANGE,
        resp[3] == ENV_BEGIN_TXN,
        resp[4] == 8,
        ({
            let len = spec_le16(resp, 1) as int;
            10 <= len && 3 + len <= resp.len()
        }),
    ensures
        ({
            let len = spec_le16(resp, 1) as int;
            spec_step(resp, st) == StepRes::Continue(
                (SessionView { transaction_descriptor: spec_le64(resp, 5), ..st }),
                3 + len,
            )
        }),
{
}

/// A commit or rollback environment change clears the transaction
/// descriptor back to zero, touches nothing else, and surfaces no message.
pub proof fn lemma_env_commit_rollback_clears(resp: Seq<u8>, st: SessionView)
    requires
        resp.len() >= 4,
        resp[0] == TAG_ENV_CHANGE,
        resp[3] == ENV_COMMIT_TXN || resp[3] == ENV_ROLLBACK_TXN,
        ({
            let len = spec_le16(resp, 1) as int;
            1 <= len && 3 + len <= resp.len()
        }),
    ensures
        ({
            let len = spec_le16(resp, 1) as int;
            spec_step(resp, st) == StepRes::Continue(
                (SessionView { transaction_descriptor: 0, ..st }),
                3 + len,
            )
        }),
{
}

/// Installing column metadata touches only the schema: the packet size
/// and transaction descriptor survive unchanged, the schema generation
/// strictly advances (until it saturates), and no message surfaces. A row
/// surfaced earlier owns its decoded values outright, so no later schema
/// installation can reach back into it.
pub proof fn lemma_col_meta_data_isolates_schema(resp: Seq<u8>, st: SessionView)
    requires
        resp.len() > 0,
        resp[0] == TAG_COL_META_DATA,
    ensures
        match spec_step(resp, st) {
            StepRes::Continue(st2, _) => st2.packet_size == st.packet_size
                && st2.transaction_descriptor == st.transaction_descriptor && st2.schema_id
                == spec_next_schema_id(st.schema_id) && (st.schema_id < u64::MAX
                ==> st2.schema_id > st.schema_id),
            StepRes::Emit(_, _, _) => false,
            StepRes::Fail(_, _) => true,
        },
{
}

/// A surfaced row was decoded wholly from the buffer against the schema
/// generation current at decode time, and surfacing it leaves the session
/// untouched.
pub proof fn lemma_row_carries_current_schema(resp: Seq<u8>, st: SessionView)
    requires
        resp.len() > 0,
        resp[0] == TAG_ROW || resp[0] == TAG_NBC_ROW,
    ensures
        match spec_step(resp, st) {
            StepRes::Continue(_, _) => false,
            StepRes::Emit(m, st2, _) => st2 == st && (m matches MessageV::Row(r) && r.schema_id
                == st.schema_id),
            StepRes::Fail(_, _) => true,
        },
{
}

/// True exactly for the messages that count as a terminal completion: a
/// Done or DoneProc whose status lacks the more-results bit. A DoneInProc
/// never counts, whatever its status, nor does any other message.
pub open spec fn spec_done_counts(m: MessageV) -> bool {
    match m {
        MessageV::Done(d) => !d.spec_has_more(),
        MessageV::DoneProc(d) => !d.spec_has_more(),
        _ => false,
    }
}

/// A well-formed server error token short-circuits the decode: the step
/// fails with the structured server error, the session is left as it was,
/// and exactly the token is consumed -- whatever follows it (the
/// accompanying terminal token included) stays in the buffer to be
/// drained.
pub proof fn lemma_error_token_short_circuits(resp: Seq<u8>, st: SessionView)
    requires
        resp.len() >= 3,
        resp[0] == TAG_ERROR,
        ({
            let len = spec_le16(resp, 1) as int;
            6 <= len && 3 + len <= resp.len()
        }),
    ensures
        ({
            let len = spec_le16(resp, 1) as int;
            spec_step(resp, st) == StepRes::Fail(
                ErrorV::Server(
                    ServerErrorV {
                        number: spec_le32(resp, 3),
                        state: resp[7],
                        class: resp[8],
                        message: resp.subrange(9, 3 + len),
                    },
                ),
                3 + len,
            )
        }),
{
}

/// A decode step that continues keeps the packet size above the framing
/// floor, and emitting never changes the session at all.
pub proof fn lemma_step_preserves_floor(resp: Seq<u8>, st: SessionView)
    requires
        resp.len() > 0,
        st.packet_size > 8,
    ensures
        match spec_step(resp, st) {
            StepRes::Continue(st2, _) => st2.packet_size > 8,
            StepRes::Emit(_, st2, _) => st2 == st,
            StepRes::Fail(_, _) => true,
        },
{
}

} // verus!

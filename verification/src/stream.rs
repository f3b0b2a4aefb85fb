use vstd::prelude::*;

use bytes::Bytes;

use crate::bufread::append_range;
use crate::bytesio::{bytes_advance, bytes_as_slice, bytes_from_vec, bytes_len, bytes_new, bytes_view};
use crate::errors::{Error, ErrorV, ServerError};
use crate::framing::{
    lemma_recv_packet_bounds, spec_frame, spec_next_packet_id, spec_recv_packet, spec_recv_rest,
    RecvResult,
};
use crate::packet::{
    decode_header, encode_header, update_status, PacketHeader, PacketType, STATUS_END_OF_MESSAGE,
    STATUS_NORMAL,
};
use crate::tokens::{
    decode_step, lemma_step_bounds, lemma_step_preserves_floor, spec_done_counts, spec_step, Done,
    Message, MessageV, Session, SessionView, StepOutcome, StepRes,
};

verus! {

/// The packet size every connection starts with, until an environment
/// change negotiates another.
pub const DEFAULT_PACKET_SIZE: u16 = 4096;

/// The wire stream of one connection: an outbound byte buffer that framed
/// packets are appended to, an inbound byte buffer that the transport
/// feeds, the partially-consumed message payload currently being decoded,
/// and the session state the decoded tokens evolve.
pub struct MssqlStream {
    pub wbuf: Vec<u8>,
    pub rbuf: Vec<u8>,
    pub rpos: usize,
    pub resp_header: Option<PacketHeader>,
    pub resp_body: Bytes,
    pub session: Session,
    pub transaction_depth: usize,
    pub pending_done_count: usize,
}

/// What the next-message interpreter yields: a surfaced message or a
/// failure, each with the session, input position and leftover message
/// buffer it leaves behind.
pub enum MsgSpecRes {
    Emit(MessageV, SessionView, int, Seq<u8>),
    Fail(ErrorV, SessionView, int, Seq<u8>),
}

/// The whole read path, stated as one interpreter: while the current
/// message buffer is drained, side-effecting tokens evolve the session;
/// an empty buffer is refilled by reading one whole packet sequence from
/// the input; the first surfaced message, or the first failure, ends the
/// run.
pub open spec fn spec_next_message(input: Seq<u8>, pos: int, resp: Seq<u8>, st: SessionView) -> MsgSpecRes
    decreases input.len() - pos, resp.len(),
{
    if resp.len() == 0 {
        match spec_recv_packet(input, pos, st.packet_size) {
            RecvResult::Read(ok) => {
                if pos < ok.end <= input.len() {
                    spec_next_message(input, ok.end, ok.payload, st)
                } else {
                    MsgSpecRes::Fail(ErrorV::UnexpectedEof, st, pos, resp)
                }
            },
            RecvResult::Fail(e, np) => MsgSpecRes::Fail(e, st, np, resp),
        }
    } else {
        match spec_step(resp, st) {
            StepRes::Continue(st2, n) => {
                if 1 <= n <= resp.len() {
                    spec_next_message(input, pos, resp.skip(n), st2)
                } else {
                    MsgSpecRes::Fail(ErrorV::UnexpectedEof, st, pos, resp)
                }
            },
            StepRes::Emit(m, st2, n) => MsgSpecRes::Emit(
                m,
                st2,
                pos,
                if 0 <= n <= resp.len() {
                    resp.skip(n)
                } else {
                    resp
                },
            ),
            StepRes::Fail(e, n) => MsgSpecRes::Fail(
                e,
                st,
                pos,
                if 0 <= n <= resp.len() {
                    resp.skip(n)
                } else {
                    resp
                },
            ),
        }
    }
}

/// What draining to idle yields: either every pending completion was
/// observed and the count reached zero, or the first failing read ended
/// the drain; each outcome carries the session, input position, buffered
/// remainder and -- on failure -- the completions still pending.
pub enum DrainRes {
    Idle(SessionView, int, Seq<u8>),
    Fail(ErrorV, SessionView, int, Seq<u8>, int),
}

/// The completion barrier, stated as one interpreter: starting from
/// `count` pending terminal completions, messages are read one after
/// another with `spec_next_message`; each surfaced Done or DoneProc whose
/// status lacks the more-results bit counts exactly one completion off,
/// while a DoneInProc (whatever its status), a Done or DoneProc with the
/// more-results bit, or any other message counts nothing; the run stops
/// when the count reaches zero or at the first failing read, whose error
/// it reports.
pub open spec fn spec_drain(
    input: Seq<u8>,
    pos: int,
    resp: Seq<u8>,
    st: SessionView,
    count: int,
) -> DrainRes
    decreases count, input.len() - pos + resp.len(),
{
    if count <= 0 {
        DrainRes::Idle(st, pos, resp)
    } else {
        match spec_next_message(input, pos, resp, st) {
            MsgSpecRes::Emit(m, st2, p2, r2) => {
                if spec_done_counts(m) {
                    spec_drain(input, p2, r2, st2, count - 1)
                } else if input.len() - p2 + r2.len() < input.len() - pos + resp.len() && 0
                    <= input.len() - p2 + r2.len() {
                    spec_drain(input, p2, r2, st2, count)
                } else {
                    // a successful read always makes progress (see
                    // recv_message's contract), so this arm never arises
                    DrainRes::Fail(ErrorV::UnexpectedEof, st2, p2, r2, count)
                }
            },
            MsgSpecRes::Fail(e, st2, p2, r2) => DrainRes::Fail(e, st2, p2, r2, count),
        }
    }
}

/// A packet-size environment change at the head of the buffered payload
/// is consumed within the same read and never surfaced: the whole read
/// equals the read of the remaining buffer against the session with the
/// parsed decimal value installed as the packet size -- so decoding
/// continues in the same call, and every later packet read and outbound
/// write (whose contracts are stated over the session's packet size) uses
/// the new value.
pub proof fn lemma_next_message_packet_size(
    input: Seq<u8>,
    pos: int,
    resp: Seq<u8>,
    st: SessionView,
)
    requires
        resp.len() >= 5,
        resp[0] == crate::tokens::TAG_ENV_CHANGE,
        resp[3] == crate::tokens::ENV_PACKET_SIZE,
        ({
            let len = crate::bufread::spec_le16(resp, 1) as int;
            let text = resp.subrange(5, 5 + resp[4]);
            2 <= len && 3 + len <= resp.len() && resp[4] <= len - 2
                && crate::bufread::spec_is_dec_u16(text) && crate::bufread::spec_dec_value(text)
                > 8
        }),
    ensures
        ({
            let len = crate::bufread::spec_le16(resp, 1) as int;
            let text = resp.subrange(5, 5 + resp[4]);
            let st2 = SessionView {
                packet_size: crate::bufread::spec_dec_value(text) as u16,
                ..st
            };
            spec_next_message(input, pos, resp, st) == spec_next_message(
                input,
                pos,
                resp.skip(3 + len),
                st2,
            )
        }),
{
    crate::tokens::lemma_env_packet_size_updates(resp, st);
}

impl MssqlStream {
    /// Basic well-formedness: the packet size can frame at least one byte,
    /// the read position stays inside the inbound buffer, the schema never
    /// exceeds what a column-count field can carry, and with no pending
    /// message header the message buffer is empty.
    pub open spec fn wf(self) -> bool {
        &&& self.session.packet_size > 8
        &&& self.rpos <= self.rbuf@.len()
        &&& self.session@.columns.len() <= 0xFFFF
        &&& (self.resp_header is None ==> bytes_view(self.resp_body).len() == 0)
    }

    /// The bytes queued for sending.
    pub open spec fn out_bytes(self) -> Seq<u8> {
        self.wbuf@
    }

    /// All inbound bytes ever fed.
    pub open spec fn input(self) -> Seq<u8> {
        self.rbuf@
    }

    /// How far the inbound bytes have been consumed.
    pub open spec fn input_pos(self) -> int {
        self.rpos as int
    }

    /// The not-yet-decoded remainder of the buffered message payload.
    pub open spec fn resp(self) -> Seq<u8> {
        bytes_view(self.resp_body)
    }

    /// The session as the contracts see it.
    pub open spec fn sview(self) -> SessionView {
        self.session@
    }

    /// Unconsumed inbound bytes, buffered payload included; reading one
    /// message strictly shrinks this.
    pub open spec fn unread(self) -> int {
        self.input().len() - self.input_pos() + self.resp().len()
    }

    /// A fresh stream: default packet size, no transaction, no pending
    /// completions, no schema, empty buffers.
    pub fn new() -> (r: MssqlStream)
        ensures
            r.wf(),
            r.session.packet_size == DEFAULT_PACKET_SIZE,
            r.session.transaction_descriptor == 0,
            r.session.schema_id == 0,
            r.sview().columns.len() == 0,
            r.transaction_depth == 0,
            r.pending_done_count == 0,
            r.out_bytes() == Seq::<u8>::empty(),
            r.input() == Seq::<u8>::empty(),
            r.input_pos() == 0,
            r.resp() == Seq::<u8>::empty(),
    {
        let r = MssqlStream {
            wbuf: Vec::new(),
            rbuf: Vec::new(),
            rpos: 0,
            resp_header: None,
            resp_body: bytes_new(),
            session: Session {
                packet_size: DEFAULT_PACKET_SIZE,
                transaction_descriptor: 0,
                columns: Vec::new(),
                schema_id: 0,
            },
            transaction_depth: 0,
            pending_done_count: 0,
        };
        assert(r.sview().columns.len() == 0);
        r
    }

    /// Hands the stream bytes that arrived from the transport.
    pub fn feed(&mut self, data: &[u8])
        requires
            old(self).wf(),
        ensures
            final(self).wf(),
            final(self).input() == old(self).input() + data@,
            final(self).input_pos() == old(self).input_pos(),
            final(self).resp() == old(self).resp(),
            final(self).out_bytes() == old(self).out_bytes(),
            final(self).session == old(self).session,
            final(self).pending_done_count == old(self).pending_done_count,
            final(self).transaction_depth == old(self).transaction_depth,
    {
        let n = data.len();
        append_range(&mut self.rbuf, data, 0, n);
        assert(data@.subrange(0, n as int) =~= data@);
    }

    /// Drains the outbound buffer for the transport to send; flushing the
    /// bytes is the transport's business.
    pub fn take_write_buffer(&mut self) -> (r: Vec<u8>)
        requires
            old(self).wf(),
        ensures
            final(self).wf(),
            r@ == old(self).out_bytes(),
            final(self).out_bytes() == Seq::<u8>::empty(),
            final(self).input() == old(self).input(),
            final(self).input_pos() == old(self).input_pos(),
            final(self).resp() == old(self).resp(),
            final(self).session == old(self).session,
            final(self).pending_done_count == old(self).pending_done_count,
            final(self).transaction_depth == old(self).transaction_depth,
    {
        let mut out: Vec<u8> = Vec::new();
        core::mem::swap(&mut self.wbuf, &mut out);
        out
    }

    /// Chunks `payload` into packets of the negotiated size and appends
    /// the framed bytes to the outbound buffer: every chunk gets a header
    /// written with `STATUS_NORMAL`, and once the last chunk is known its
    /// header's status byte is patched to `STATUS_END_OF_MESSAGE` in
    /// place. Even an empty payload frames as one packet.
    pub fn write_packet(&mut self, ty: PacketType, payload: &[u8])
        requires
            old(self).wf(),
        ensures
            final(self).wf(),
            final(self).out_bytes() == old(self).out_bytes() + spec_frame(
                ty,
                payload@,
                old(self).session.packet_size,
                1,
            ),
            final(self).input() == old(self).input(),
            final(self).input_pos() == old(self).input_pos(),
            final(self).resp() == old(self).resp(),
            final(self).session == old(self).session,
            final(self).pending_done_count == old(self).pending_done_count,
            final(self).transaction_depth == old(self).transaction_depth,
    {
        let psize = self.session.packet_size;
        let cap = (psize - 8) as usize;
        let n = payload.len();
        let mut pos: usize = 0;
        let mut pid: u8 = 1;
        assert(payload@.skip(0) =~= payload@);
        while n - pos > cap
            invariant
                old(self).wf(),
                psize == old(self).session.packet_size,
                cap == psize - 8,
                pos <= n,
                n == payload@.len(),
                self.wbuf@ + spec_frame(ty, payload@.skip(pos as int), psize, pid) == old(self).wbuf@ + spec_frame(ty, payload@, psize, 1),
                self.rbuf == old(self).rbuf,
                self.rpos == old(self).rpos,
                self.resp_header == old(self).resp_header,
                self.resp_body == old(self).resp_body,
                self.session == old(self).session,
                self.pending_done_count == old(self).pending_done_count,
                self.transaction_depth == old(self).transaction_depth,
            decreases n - pos,
        {
            let h = PacketHeader {
                packet_type: ty,
                status: STATUS_NORMAL,
                length: psize,
                routing_id: 0,
                packet_id: pid,
                window: 0,
            };
            let ghost pre = self.wbuf@;
            let ghost rem = payload@.skip(pos as int);
            encode_header(&h, &mut self.wbuf);
            append_range(&mut self.wbuf, payload, pos, pos + cap);
            proof {
                assert(payload@.subrange(pos as int, pos as int + cap as int) =~= rem.take(
                    cap as int,
                ));
                assert(rem.skip(cap as int) =~= payload@.skip(pos as int + cap as int));
                assert(self.wbuf@ =~= pre + (crate::packet::spec_encode_header(h) + rem.take(
                    cap as int,
                )));
                assert(spec_frame(ty, rem, psize, pid) == crate::packet::spec_encode_header(h)
                    + rem.take(cap as int) + spec_frame(
                    ty,
                    rem.skip(cap as int),
                    psize,
                    spec_next_packet_id(pid),
                ));
                assert(self.wbuf@ + spec_frame(
                    ty,
                    payload@.skip(pos as int + cap as int),
                    psize,
                    spec_next_packet_id(pid),
                ) =~= pre + spec_frame(ty, rem, psize, pid));
            }
            pos = pos + cap;
            let ghost prev_pid = pid;
            pid = if pid == 255 {
                0
            } else {
                pid + 1
            };
            proof {
                assert(pid == spec_next_packet_id(prev_pid));
            }
        }
        // last chunk: write its header as normal, then patch the status in
        // place now that it is known to be the last
        let h = PacketHeader {
            packet_type: ty,
            status: STATUS_NORMAL,
            length: (n - pos + 8) as u16,
            routing_id: 0,
            packet_id: pid,
            window: 0,
        };
        let header_offset = self.wbuf.len();
        let ghost pre = self.wbuf@;
        let ghost rem = payload@.skip(pos as int);
        encode_header(&h, &mut self.wbuf);
        update_status(&mut self.wbuf, header_offset, STATUS_END_OF_MESSAGE);
        append_range(&mut self.wbuf, payload, pos, n);
        proof {
            let he = PacketHeader {
                packet_type: ty,
                status: STATUS_END_OF_MESSAGE,
                length: (n - pos + 8) as u16,
                routing_id: 0,
                packet_id: pid,
                window: 0,
            };
            assert(STATUS_NORMAL | STATUS_END_OF_MESSAGE == STATUS_END_OF_MESSAGE) by (bit_vector);
            assert((pre + crate::packet::spec_encode_header(h)).update(
                header_offset as int + 1,
                STATUS_END_OF_MESSAGE,
            ) =~= pre + crate::packet::spec_encode_header(he));
            assert(payload@.subrange(pos as int, n as int) =~= rem);
            assert(spec_frame(ty, rem, psize, pid) == crate::packet::spec_encode_header(he) + rem);
            assert(self.wbuf@ =~= pre + spec_frame(ty, rem, psize, pid));
        }
    }

    /// Reads one whole message's packet sequence out of the inbound
    /// buffer: the first header must be tabular-result, then header+chunk
    /// pairs accumulate until one carries the end-of-message bit. Returns
    /// the last header and the reassembled payload.
    pub fn recv_packet(&mut self) -> (r: Result<(PacketHeader, Bytes), Error>)
        requires
            old(self).wf(),
        ensures
            final(self).wf(),
            final(self).out_bytes() == old(self).out_bytes(),
            final(self).input() == old(self).input(),
            final(self).resp() == old(self).resp(),
            final(self).session == old(self).session,
            final(self).pending_done_count == old(self).pending_done_count,
            final(self).transaction_depth == old(self).transaction_depth,
            ({
                let res = spec_recv_packet(
                    old(self).input(),
                    old(self).input_pos(),
                    old(self).session.packet_size,
                );
                match r {
                    Ok(p) => res matches RecvResult::Read(ok) && p.0 == ok.header && bytes_view(
                        p.1,
                    ) == ok.payload && final(self).input_pos() == ok.end,
                    Err(e) => res matches RecvResult::Fail(ev, np) && e@ == ev && final(self).input_pos() == np,
                }
            }),
    {
        let len = self.rbuf.len();
        let psize = self.session.packet_size;
        if len - self.rpos < 8 {
            return Err(Error::UnexpectedEof);
        }
        let first = match decode_header(self.rbuf.as_slice(), self.rpos) {
            Ok(h) => h,
            Err(e) => {
                self.rpos = self.rpos + 8;
                return Err(e);
            },
        };
        if first.packet_type != PacketType::TabularResult {
            let b = self.rbuf[self.rpos];
            self.rpos = self.rpos + 8;
            return Err(Error::UnexpectedPacketType(b));
        }
        let start = self.rpos;
        assert(spec_recv_packet(self.rbuf@, start as int, psize) == spec_recv_rest(
            self.rbuf@,
            start as int,
            start as int,
            psize,
            Seq::empty(),
        ));
        let mut payload: Vec<u8> = Vec::new();
        loop
            invariant
                old(self).wf(),
                len == self.rbuf@.len(),
                psize == old(self).session.packet_size,
                start == old(self).rpos,
                start <= self.rpos <= len,
                self.rbuf == old(self).rbuf,
                self.wbuf == old(self).wbuf,
                self.resp_header == old(self).resp_header,
                self.resp_body == old(self).resp_body,
                self.session == old(self).session,
                self.pending_done_count == old(self).pending_done_count,
                self.transaction_depth == old(self).transaction_depth,
                spec_recv_rest(self.rbuf@, start as int, self.rpos as int, psize, payload@)
                    == spec_recv_packet(old(self).rbuf@, old(self).rpos as int, psize),
            decreases len - self.rpos,
        {
            if len - self.rpos < 8 {
                // mid-message truncation: rewind to the message start so
                // that feeding more bytes and retrying rereads the whole
                // message
                self.rpos = start;
                return Err(Error::UnexpectedEof);
            }
            let h = match decode_header(self.rbuf.as_slice(), self.rpos) {
                Ok(h) => h,
                Err(e) => {
                    self.rpos = self.rpos + 8;
                    return Err(e);
                },
            };
            if h.length < 8 || h.length > psize {
                self.rpos = self.rpos + 8;
                return Err(Error::InvalidPacketLength(h.length));
            }
            let plen = (h.length - 8) as usize;
            if len - (self.rpos + 8) < plen {
                self.rpos = start;
                return Err(Error::UnexpectedEof);
            }
            append_range(&mut payload, self.rbuf.as_slice(), self.rpos + 8, self.rpos + plen + 8);
            let eom = h.status & STATUS_END_OF_MESSAGE == STATUS_END_OF_MESSAGE;
            assert(self.rpos + plen + 8 == self.rpos + h.length);
            self.rpos = self.rpos + plen + 8;
            if eom {
                return Ok((h, bytes_from_vec(payload)));
            }
        }
    }

    /// Retrieves the next caller-relevant message, refilling the message
    /// buffer from the packet layer as needed and applying side-effecting
    /// tokens to the session on the way, exactly as `spec_next_message`
    /// says. Reading a message always consumes at least one unread byte.
    pub fn recv_message(&mut self) -> (r: Result<Message, Error>)
        requires
            old(self).wf(),
        ensures
            final(self).wf(),
            final(self).out_bytes() == old(self).out_bytes(),
            final(self).input() == old(self).input(),
            final(self).pending_done_count == old(self).pending_done_count,
            final(self).transaction_depth == old(self).transaction_depth,
            final(self).unread() <= old(self).unread(),
            r is Ok ==> final(self).unread() < old(self).unread(),
            ({
                let res = spec_next_message(
                    old(self).input(),
                    old(self).input_pos(),
                    old(self).resp(),
                    old(self).sview(),
                );
                match r {
                    Ok(m) => res matches MsgSpecRes::Emit(mv, st2, p2, r2) && m@ == mv && final(self).sview() == st2 && final(self).input_pos() == p2 && final(self).resp() == r2,
                    Err(e) => res matches MsgSpecRes::Fail(ev, st2, p2, r2) && e@ == ev && final(self).sview() == st2 && final(self).input_pos() == p2 && final(self).resp() == r2,
                }
            }),
    {
        loop
            invariant
                self.wf(),
                self.wbuf@ == old(self).wbuf@,
                self.rbuf@ == old(self).rbuf@,
                self.pending_done_count == old(self).pending_done_count,
                self.transaction_depth == old(self).transaction_depth,
                self.unread() <= old(self).unread(),
                spec_next_message(self.input(), self.input_pos(), self.resp(), self.sview())
                    == spec_next_message(
                    old(self).input(),
                    old(self).input_pos(),
                    old(self).resp(),
                    old(self).sview(),
                ),
            decreases self.input().len() - self.input_pos(), self.resp().len(),
        {
            let blen = bytes_len(&self.resp_body);
            if blen == 0 {
                proof {
                    lemma_recv_packet_bounds(
                        self.rbuf@,
                        self.rpos as int,
                        self.session.packet_size,
                    );
                }
                match self.recv_packet() {
                    Ok(p) => {
                        let (h, b) = p;
                        self.resp_header = Some(h);
                        self.resp_body = b;
                    },
                    Err(e) => {
                        return Err(e);
                    },
                }
            } else {
                let ghost st0 = self.session@;
                let ghost resp0 = bytes_view(self.resp_body);
                let outcome = {
                    let s = bytes_as_slice(&self.resp_body);
                    decode_step(s, &mut self.session)
                };
                proof {
                    lemma_step_bounds(resp0, st0);
                    lemma_step_preserves_floor(resp0, st0);
                }
                match outcome {
                    StepOutcome::Next(n) => {
                        bytes_advance(&mut self.resp_body, n);
                    },
                    StepOutcome::Emit(m, n) => {
                        bytes_advance(&mut self.resp_body, n);
                        return Ok(m);
                    },
                    StepOutcome::Fail(e, n) => {
                        bytes_advance(&mut self.resp_body, n);
                        return Err(e);
                    },
                }
            }
        }
    }

    /// One terminal completion has been observed: count it off.
    pub fn handle_done(&mut self, _done: &Done)
        requires
            old(self).wf(),
            old(self).pending_done_count > 0,
        ensures
            final(self).wf(),
            final(self).pending_done_count == old(self).pending_done_count - 1,
            final(self).out_bytes() == old(self).out_bytes(),
            final(self).input() == old(self).input(),
            final(self).input_pos() == old(self).input_pos(),
            final(self).resp() == old(self).resp(),
            final(self).session == old(self).session,
            final(self).transaction_depth == old(self).transaction_depth,
    {
        self.pending_done_count = self.pending_done_count - 1;
    }

    /// Converts a server-reported error token into the failure of the
    /// current read; the accompanying terminal token is still on the wire
    /// and must be drained before the connection is reused.
    pub fn handle_error(&mut self, error: ServerError) -> (r: Result<Message, Error>)
        requires
            old(self).wf(),
        ensures
            *final(self) == *old(self),
            r matches Err(e) && e@ == ErrorV::Server(error@),
    {
        Err(Error::Server(error))
    }

    /// The synchronization barrier before the connection may be reused:
    /// any unsent outbound bytes must first be handed to the transport
    /// (`take_write_buffer`) and flushed there; this call then keeps
    /// reading messages until every pending terminal completion has been
    /// observed, behaving exactly as `spec_drain` says: Done and DoneProc
    /// messages without the more-results bit count one completion off,
    /// DoneInProc never does, success comes exactly when the count reaches
    /// zero, and a failing read ends the call with that read's error and
    /// no decrement.
    pub fn wait_until_ready(&mut self) -> (r: Result<(), Error>)
        requires
            old(self).wf(),
        ensures
            final(self).wf(),
            final(self).out_bytes() == old(self).out_bytes(),
            final(self).input() == old(self).input(),
            final(self).transaction_depth == old(self).transaction_depth,
            final(self).pending_done_count <= old(self).pending_done_count,
            r is Ok ==> final(self).pending_done_count == 0,
            r is Err ==> final(self).pending_done_count > 0,
            old(self).pending_done_count == 0 ==> r is Ok && *final(self) == *old(self),
            ({
                let res = spec_drain(
                    old(self).input(),
                    old(self).input_pos(),
                    old(self).resp(),
                    old(self).sview(),
                    old(self).pending_done_count as int,
                );
                match r {
                    Ok(_) => res matches DrainRes::Idle(st2, p2, r2) && final(self).sview() == st2
                        && final(self).input_pos() == p2 && final(self).resp() == r2 && final(self).pending_done_count == 0,
                    Err(e) => res matches DrainRes::Fail(ev, st2, p2, r2, c) && e@ == ev && final(self).sview() == st2 && final(self).input_pos() == p2 && final(self).resp() == r2
                        && final(self).pending_done_count == c,
                }
            }),
    {
        if self.pending_done_count == 0 {
            return Ok(());
        }
        while self.pending_done_count > 0
            invariant
                self.wf(),
                self.wbuf@ == old(self).wbuf@,
                self.rbuf@ == old(self).rbuf@,
                self.transaction_depth == old(self).transaction_depth,
                self.pending_done_count <= old(self).pending_done_count,
                spec_drain(
                    self.input(),
                    self.input_pos(),
                    self.resp(),
                    self.sview(),
                    self.pending_done_count as int,
                ) == spec_drain(
                    old(self).input(),
                    old(self).input_pos(),
                    old(self).resp(),
                    old(self).sview(),
                    old(self).pending_done_count as int,
                ),
            decreases self.pending_done_count, self.unread(),
        {
            match self.recv_message() {
                Ok(m) => {
                    match m {
                        Message::Done(d) => {
                            if !d.has_more() {
                                self.handle_done(&d);
                            }
                        },
                        Message::DoneProc(d) => {
                            if !d.has_more() {
                                self.handle_done(&d);
                            }
                        },
                        _ => {},
                    }
                },
                Err(e) => {
                    return Err(e);
                },
            }
        }
        Ok(())
    }

    /// The position of the first column with this exact name, if any.
    pub fn column_index(&self, name: &[u8]) -> (r: Option<usize>)
        ensures
            match r {
                Some(i) => i < self.sview().columns.len() && self.sview().columns[i as int].name
                    == name@ && (forall|j: int|
                    0 <= j < i ==> self.sview().columns[j].name != name@),
                None => forall|j: int|
                    0 <= j < self.sview().columns.len() ==> self.sview().columns[j].name != name@,
            },
    {
        let n = self.session.columns.len();
        let mut i: usize = 0;
        while i < n
            invariant
                i <= n,
                n == self.sview().columns.len(),
                forall|j: int| 0 <= j < i ==> self.sview().columns[j].name != name@,
            decreases n - i,
        {
            if crate::bufread::slices_equal(self.session.columns[i].name.as_slice(), name) {
                assert(self.sview().columns[i as int].name == name@);
                return Some(i);
            }
            assert(self.sview().columns[i as int].name != name@);
            i = i + 1;
        }
        None
    }

    /// The column names of the current schema, in order.
    pub fn column_names(&self) -> (r: Vec<Vec<u8>>)
        ensures
            r@.len() == self.sview().columns.len(),
            forall|i: int|
                0 <= i < r@.len() ==> #[trigger] r@[i]@ == self.sview().columns[i].name,
    {
        let n = self.session.columns.len();
        let mut r: Vec<Vec<u8>> = Vec::new();
        let mut i: usize = 0;
        while i < n
            invariant
                i <= n,
                n == self.sview().columns.len(),
                n == self.session.columns@.len(),
                r@.len() == i,
                forall|j: int|
                    0 <= j < i ==> #[trigger] r@[j]@ == self.sview().columns[j].name,
            decreases n - i,
        {
            let name = &self.session.columns[i].name;
            let copy = crate::bufread::copy_range(name.as_slice(), 0, name.len());
            assert(name@.subrange(0, name@.len() as int) =~= name@);
            r.push(copy);
            i = i + 1;
        }
        r
    }

    /// The negotiated packet size.
    pub fn packet_size(&self) -> (r: u16)
        ensures
            r == self.session.packet_size,
    {
        self.session.packet_size
    }

    /// The active transaction descriptor, 0 when none.
    pub fn transaction_descriptor(&self) -> (r: u64)
        ensures
            r == self.session.transaction_descriptor,
    {
        self.session.transaction_descriptor
    }

    /// The schema generation installed by the most recent column metadata.
    pub fn schema_id(&self) -> (r: u64)
        ensures
            r == self.session.schema_id,
    {
        self.session.schema_id
    }
}

} // verus!

use vstd::prelude::*;

verus! {

/// A structured error reported by the server inside an Error token:
/// error number, state, severity class, and the raw message text.
#[derive(Debug)]
pub struct ServerError {
    pub number: u32,
    pub state: u8,
    pub class: u8,
    pub message: Vec<u8>,
}

/// Mathematical image of a `ServerError`.
pub struct ServerErrorV {
    pub number: u32,
    pub state: u8,
    pub class: u8,
    pub message: Seq<u8>,
}

impl View for ServerError {
    type V = ServerErrorV;

    open spec fn view(&self) -> ServerErrorV {
        ServerErrorV {
            number: self.number,
            state: self.state,
            class: self.class,
            message: self.message@,
        }
    }
}

/// Everything that can go wrong while framing or decoding the stream.
///
/// The first variant stands for the transport ending mid-item; the next
/// four are protocol desynchronization (fatal, the connection cannot be
/// resynchronized); `BadPacketSize` carries the offending raw text of an
/// environment-change value that did not parse; `Server` is an error the
/// server itself reported, which ends the current read but leaves the
/// stream positioned after the error token.
#[derive(Debug)]
pub enum Error {
    UnexpectedEof,
    UnknownPacketType(u8),
    UnexpectedPacketType(u8),
    InvalidPacketLength(u16),
    UnknownMessageType(u8),
    MalformedToken(u8),
    BadPacketSize(Vec<u8>),
    Server(ServerError),
}

/// Mathematical image of an `Error`.
pub enum ErrorV {
    UnexpectedEof,
    UnknownPacketType(u8),
    UnexpectedPacketType(u8),
    InvalidPacketLength(u16),
    UnknownMessageType(u8),
    MalformedToken(u8),
    BadPacketSize(Seq<u8>),
    Server(ServerErrorV),
}

impl View for Error {
    type V = ErrorV;

    open spec fn view(&self) -> ErrorV {
        match self {
            Error::UnexpectedEof => ErrorV::UnexpectedEof,
            Error::UnknownPacketType(b) => ErrorV::UnknownPacketType(*b),
            Error::UnexpectedPacketType(b) => ErrorV::UnexpectedPacketType(*b),
            Error::InvalidPacketLength(l) => ErrorV::InvalidPacketLength(*l),
            Error::UnknownMessageType(b) => ErrorV::UnknownMessageType(*b),
            Error::MalformedToken(b) => ErrorV::MalformedToken(*b),
            Error::BadPacketSize(t) => ErrorV::BadPacketSize(t@),
            Error::Server(e) => ErrorV::Server(e@),
        }
    }
}

impl Error {
    /// True exactly when this error came from the server rather than from
    /// a framing or decoding failure of the stream itself.
    pub fn is_server_error(&self) -> (r: bool)
        ensures
            r == (self@ is Server),
    {
        matches!(self, Error::Server(_))
    }
}

} // verus!

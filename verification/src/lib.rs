//! The packet framer and message demultiplexer of a tabular-data-stream
//! database connection: chunking outbound payloads into size-bounded wire
//! packets, reassembling inbound packets into logical messages, decoding
//! the tagged message tokens a server response carries, applying the
//! side-effecting ones (transaction identity, negotiated packet size,
//! column schema) to the session, and counting outstanding terminal
//! completions so a caller knows when the connection is idle again.

pub mod bufread;
pub mod bytesio;
pub mod errors;
pub mod framing;
pub mod packet;
pub mod stream;
pub mod tokens;

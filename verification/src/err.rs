use vstd::prelude::*;

verus! {

/// The error taxonomy of the protocol engine.
///
/// `Transport` and `Format` are fatal for the session that raised them;
/// every other variant is returned only to the caller whose request
/// triggered it and leaves the session running.
#[derive(Debug, Clone, PartialEq, Eq)]
pub enum Error {
    /// An I/O failure on the underlying byte stream.
    Transport,
    /// Bytes that are not valid text arrived inside a frame.
    Format,
    /// A field that should carry a decimal number does not.
    ParseInt,
    /// A command could not be handed to the session.
    Send,
    /// The session has been torn down; no further exchange is possible.
    Closed,
    /// The device answered with its generic error reply.
    SyntaxError,
    /// A reply whose shape lies outside the known grammar.
    UnknownMessage,
    /// A reply that names the wrong entity for the pending command.
    UnexpectedMessage,
    /// A payload field whose value is outside its domain.
    InvalidPayload(String),
    /// The device rejected the supplied credential.
    Auth,
}

} // verus!

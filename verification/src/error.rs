use vstd::prelude::*;

verus! {

/// Errors of a uTP connection.
#[derive(Debug)]
pub enum SocketError {
    ConnectionClosed,
    ConnectionReset,
    ConnectionTimedOut,
    InvalidAddress,
    InvalidReply,
    NotConnected,
    Other(String),
}

/// The text that describes an error of a uTP connection.
pub open spec fn socket_error_text(e: SocketError) -> Seq<char> {
    match e {
        SocketError::ConnectionClosed => "The socket is closed"@,
        SocketError::ConnectionReset => "Connection reset by remote peer"@,
        SocketError::ConnectionTimedOut => "Connection timed out"@,
        SocketError::InvalidAddress => "Invalid address"@,
        SocketError::InvalidReply => "The remote peer sent an invalid reply"@,
        SocketError::NotConnected => "The socket is not connected"@,
        SocketError::Other(s) => s@,
    }
}

impl SocketError {
    /// Returns a human-readable description of the error.
    pub fn description(&self) -> (d: String)
        ensures
            d@ == socket_error_text(*self),
    {
        match self {
            SocketError::ConnectionClosed => "The socket is closed".to_owned(),
            SocketError::ConnectionReset => "Connection reset by remote peer".to_owned(),
            SocketError::ConnectionTimedOut => "Connection timed out".to_owned(),
            SocketError::InvalidAddress => "Invalid address".to_owned(),
            SocketError::InvalidReply => "The remote peer sent an invalid reply".to_owned(),
            SocketError::NotConnected => "The socket is not connected".to_owned(),
            SocketError::Other(s) => s.clone(),
        }
    }
}

/// The kinds of I/O error that the errors of a connection stand for.
#[derive(Debug, Clone, Copy, PartialEq, Eq, Structural)]
pub enum IoErrorKind {
    NotConnected,
    ConnectionReset,
    TimedOut,
    InvalidInput,
    ConnectionRefused,
    Other,
}

/// The kind of I/O error that an error of a connection stands for.
pub open spec fn io_kind_of(e: SocketError) -> IoErrorKind {
    match e {
        SocketError::ConnectionClosed | SocketError::NotConnected => IoErrorKind::NotConnected,
        SocketError::ConnectionReset => IoErrorKind::ConnectionReset,
        SocketError::ConnectionTimedOut => IoErrorKind::TimedOut,
        SocketError::InvalidAddress => IoErrorKind::InvalidInput,
        SocketError::InvalidReply => IoErrorKind::ConnectionRefused,
        SocketError::Other(_) => IoErrorKind::Other,
    }
}

impl SocketError {
    /// Returns the kind of I/O error that the error stands for.
    pub fn io_kind(&self) -> (k: IoErrorKind)
        ensures
            k == io_kind_of(*self),
    {
        match self {
            SocketError::ConnectionClosed | SocketError::NotConnected => IoErrorKind::NotConnected,
            SocketError::ConnectionReset => IoErrorKind::ConnectionReset,
            SocketError::ConnectionTimedOut => IoErrorKind::TimedOut,
            SocketError::InvalidAddress => IoErrorKind::InvalidInput,
            SocketError::InvalidReply => IoErrorKind::ConnectionRefused,
            SocketError::Other(_) => IoErrorKind::Other,
        }
    }
}

/// Errors found while decoding a packet.
#[derive(Debug, Clone, Copy, PartialEq, Eq, Structural)]
pub enum ParseError {
    InvalidExtensionLength,
    InvalidPacketLength,
    InvalidPacketType(u8),
    UnsupportedVersion,
}

/// The text that describes a decoding error.
pub open spec fn parse_error_text(e: ParseError) -> Seq<char> {
    match e {
        ParseError::InvalidExtensionLength => "Invalid extension length (must be a non-zero multiple of 4)"@,
        ParseError::InvalidPacketLength => "The packet is too small"@,
        ParseError::InvalidPacketType(_) => "Invalid packet type"@,
        ParseError::UnsupportedVersion => "Unsupported packet version"@,
    }
}

impl ParseError {
    /// Returns a human-readable description of the error.
    pub fn description(&self) -> (d: String)
        ensures
            d@ == parse_error_text(*self),
    {
        match self {
            ParseError::InvalidExtensionLength => "Invalid extension length (must be a non-zero multiple of 4)".to_owned(),
            ParseError::InvalidPacketLength => "The packet is too small".to_owned(),
            ParseError::InvalidPacketType(_) => "Invalid packet type".to_owned(),
            ParseError::UnsupportedVersion => "Unsupported packet version".to_owned(),
        }
    }
}

} // verus!

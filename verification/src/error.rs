//! The ways in which a connection, or the whole gateway, can fail.

use vstd::prelude::*;

verus! {

/// Why a connection was given up, or why the gateway could not start.
///
/// Every kind but `ConfigLoadFailure` ends one connection and leaves all
/// others alone. Nothing is retried.
#[derive(Clone, Copy, Debug, PartialEq, Eq, Structural)]
pub enum ProxyError {
    /// A stream ended before the bytes that were waited for had arrived.
    ConnectionClosed,
    /// More bytes were gathered than one line may hold, and no delimiter yet.
    LineTooLong,
    /// No connection to the relay could be opened.
    RelayUnreachable,
    /// The relay did not accept the "no authentication" method.
    RelayProtocolError,
    /// The relay refused, or garbled, the answer to the CONNECT command.
    RelayConnectRejected,
    /// The destination is a socket address of a family other than IPv4.
    UnsupportedAddressFamily,
    /// The destination names no port, or one that is no 16-bit number, or a
    /// host too long for the one length byte of a SOCKS5 request.
    InvalidDestination,
    /// The configuration could not be read. Fatal to the whole process.
    ConfigLoadFailure,
}

impl ProxyError {
    /// Whether this failure ends the process rather than one connection.
    pub open spec fn fatal(self) -> bool {
        self == ProxyError::ConfigLoadFailure
    }

    /// Whether this failure ends the process rather than one connection.
    pub fn is_fatal(&self) -> (r: bool)
        ensures
            r == self.fatal(),
    {
        match self {
            ProxyError::ConfigLoadFailure => true,
            _ => false,
        }
    }
}

} // verus!

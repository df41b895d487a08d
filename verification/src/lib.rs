//! Protocol core of a gateway that accepts HTTP proxy requests and carries
//! each one through a SOCKS5 relay.
//!
//! Nothing in this crate touches a socket. The caller reads and writes; the
//! crate decides what the bytes mean and what has to be sent next.
//!
//! - `connection` holds one client connection: it reads the request, runs
//!   the handshake with the relay, and then passes bytes on.
//! - `request` reads the first line of a request, `line_reader` the lines
//!   that it is made of.
//! - `socks5` is the handshake with the relay, `addr` the texts that name a
//!   destination.
//! - `theorems` states what holds of every handshake and connection.
//! - `text` holds what the parsers share, `error` the ways to fail.

pub mod addr;
pub mod connection;
pub mod error;
pub mod line_reader;
pub mod request;
pub mod socks5;
pub mod text;
pub mod theorems;

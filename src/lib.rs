//! A small key-value server core speaking a Redis-like wire protocol.
//!
//! The library holds the logic: the wire codec, the keyed store with lazy
//! expiry, the command dispatcher and the replica-side handshake. Sockets,
//! tasks and clocks are left to the caller, which hands plain values in.
use vstd::prelude::*;

pub mod command;
pub mod data;
pub mod decimal;
pub mod handshake;
pub mod reader;
pub mod resp;
pub mod server;
pub mod writer;

pub use command::{command, handle_request, CommandError};
pub use data::{Data, ValueWithMeta};
pub use handshake::{handshake_next, handshake_start, HandshakeError, HandshakeState};
pub use reader::{parse_item, DecodeError, RespReader};
pub use resp::{RespType, ValueError};
pub use server::{ReplicationMode, ServerInfo};
pub use writer::RespWriter;

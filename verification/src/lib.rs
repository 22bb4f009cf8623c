//! Battle.net lobby server core: frame codec, protobuf wire handling,
//! RPC service tables and the connection handshake, with their contracts.
pub mod buffers;
pub mod rpc;
pub mod service_info;
pub mod connection_service;
pub mod response_service;
pub mod router;
pub mod session;
pub mod path_order;
pub mod proto_modules;
pub mod wire;
pub mod header;
pub mod frame;
pub mod connection_proto;

use vstd::prelude::*;

verus! {

/// A signal the server received from its environment.
#[derive(Debug, Clone, Copy, PartialEq, Eq, Structural)]
pub enum Signal {
    NoSignal,
    TermQuit,
}

} // verus!

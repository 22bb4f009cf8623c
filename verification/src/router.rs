//! Packets as the router moves them between clients and services.
use crate::buffers::bytes_seq;
use bytes::Bytes;
use vstd::prelude::*;

verus! {

/// Where a packet is going and what it carries.
#[derive(Debug, Clone, Copy, PartialEq, Eq, Structural)]
pub struct RouteHeader {
    pub receiver: u64,
    pub service_id: u32,
    pub method_id: Option<u32>,
    pub token: u32,
    pub status: u32,
}

/// A routed packet: its route header and its body.
#[derive(Debug)]
pub struct InternalPacket {
    pub header: RouteHeader,
    pub body: Bytes,
}

/// The router's verdict on a packet.
#[derive(Debug)]
pub enum RoutablePacket {
    Stop,
    Return(InternalPacket),
    Next(InternalPacket),
}

} // verus!

//! A client session: its errors, the connection handshake, and the state
//! the session keeps once connected.
use crate::connection_service::{
    is_connect_reply, read_clock, spec_connect_direct, spec_connect_response, ConnectionService,
};
use crate::connection_proto::connect_response_bytes;
use crate::buffers::bytes_seq;
use crate::frame::{BNetPacket, FrameError};
use crate::response_service::{response_header, ResponseService, RESPONSE_SERVICE_ID};
use crate::rpc::{RPCService, Request, Response, RpcError};
use vstd::prelude::*;

verus! {

/// Why a session ended.
#[derive(Debug)]
pub enum SessionError {
    /// The client hung up.
    ClientDisconnected,
    /// A request was expected but the client sent something else.
    MissingRequest,
    /// The client did not respond correctly during the named step.
    ProcedureFail(&'static str),
    /// The client did not respond within the time limit.
    Timeout,
    /// The shared server state was poisoned by a panicking thread.
    StatePoisoning,
    /// The byte stream could not be framed.
    Framing(FrameError),
    /// A service refused a request.
    Service(RpcError),
}

impl Request<BNetPacket> {
    /// Takes a packet read from the client as a request; responses are
    /// refused.
    pub fn from_bnet(packet: BNetPacket) -> (res: Result<Self, SessionError>)
        ensures
            packet.header.service_id != RESPONSE_SERVICE_ID ==> (res matches Ok(r) && r.inner() == packet),
            packet.header.service_id == RESPONSE_SERVICE_ID ==> res matches Err(SessionError::MissingRequest),
    {
        if packet.header.service_id == ResponseService::get_id() {
            return Err(SessionError::MissingRequest);
        }
        Ok(Request::new(packet))
    }
}

/// Where a handshake is.
#[derive(Debug, Clone, Copy, PartialEq, Eq, Structural)]
pub enum HandshakeStage {
    /// Waiting for the client's `Connect` request.
    AwaitConnect,
    /// Connected; waiting for the client's next request.
    AwaitNext,
    /// The handshake is over.
    Complete,
}

/// What the session must do after a packet of the handshake.
#[derive(Debug)]
pub enum HandshakeAction {
    /// Send this response, then read the next request.
    Respond(Response<BNetPacket>),
    /// Read the next request.
    ReadNext,
    /// The handshake is done; hand the session over.
    Finish,
}

/// The connection handshake as a state machine: the session reads a packet,
/// hands it here, and performs the action it gets back.
pub struct Handshake {
    stage: HandshakeStage,
}

impl Handshake {
    pub closed spec fn spec_stage(self) -> HandshakeStage {
        self.stage
    }

    pub fn new() -> (h: Self)
        ensures
            h.spec_stage() == HandshakeStage::AwaitConnect,
    {
        Handshake { stage: HandshakeStage::AwaitConnect }
    }

    pub fn stage(&self) -> (s: HandshakeStage)
        ensures
            s == self.spec_stage(),
    {
        self.stage
    }

    /// Handles a packet the client sent, with the clock read as `time`
    /// (seconds) and `precise_time` (nanoseconds, `None` when they do not
    /// fit 64 bits). The first must be a `Connect` request, answered with
    /// the connect response carrying those readings; the request after it
    /// completes the handshake.
    pub fn on_packet_at(&mut self, packet: BNetPacket, time: i64, precise_time: Option<i64>) -> (res: Result<
        HandshakeAction,
        SessionError,
    >)
        requires
            old(self).spec_stage() != HandshakeStage::Complete,
        ensures
            packet.header.service_id == RESPONSE_SERVICE_ID ==> {
                &&& res matches Err(SessionError::MissingRequest)
                &&& final(self).spec_stage() == old(self).spec_stage()
            },
            packet.header.service_id != RESPONSE_SERVICE_ID && old(self).spec_stage()
                == HandshakeStage::AwaitNext ==> {
                &&& res matches Ok(HandshakeAction::Finish)
                &&& final(self).spec_stage() == HandshakeStage::Complete
            },
            packet.header.service_id != RESPONSE_SERVICE_ID && old(self).spec_stage()
                == HandshakeStage::AwaitConnect ==> match spec_connect_direct(
                packet.header.method_id,
                bytes_seq(packet.body),
            ) {
                Err(e) => {
                    &&& res matches Err(SessionError::Service(f)) && f == e
                    &&& final(self).spec_stage() == HandshakeStage::AwaitConnect
                },
                Ok(bindings) => match precise_time {
                    None => {
                        &&& res matches Err(SessionError::Service(f)) && f == RpcError::ClockOutOfRange
                        &&& final(self).spec_stage() == HandshakeStage::AwaitConnect
                    },
                    Some(p) => {
                        &&& res matches Ok(HandshakeAction::Respond(r)) && r.inner().header == response_header(
                            packet.header.token,
                            bytes_seq(r.inner().body).len(),
                        ) && bytes_seq(r.inner().body) == connect_response_bytes(
                            spec_connect_response(bindings, time, p),
                        )
                        &&& final(self).spec_stage() == HandshakeStage::AwaitNext
                    },
                },
            },
    {
        let request = Request::from_bnet(packet)?;
        match self.stage {
            HandshakeStage::AwaitConnect => {
                let (connect_request, connect_response) = match ConnectionService::connect_direct_at(request, time, precise_time) {
                    Ok(r) => r,
                    Err(e) => return Err(SessionError::Service(e)),
                };
                self.stage = HandshakeStage::AwaitNext;
                match connect_response {
                    Some(response_data) => Ok(HandshakeAction::Respond(connect_request.into_response(response_data))),
                    None => Ok(HandshakeAction::ReadNext),
                }
            },
            _ => {
                self.stage = HandshakeStage::Complete;
                Ok(HandshakeAction::Finish)
            },
        }
    }

    /// Handles a packet the client sent. The first must be a `Connect`
    /// request, answered with the connect response; the request after it
    /// completes the handshake.
    pub fn on_packet(&mut self, packet: BNetPacket) -> (res: Result<HandshakeAction, SessionError>)
        requires
            old(self).spec_stage() != HandshakeStage::Complete,
        ensures
            packet.header.service_id == RESPONSE_SERVICE_ID ==> {
                &&& res matches Err(SessionError::MissingRequest)
                &&& final(self).spec_stage() == old(self).spec_stage()
            },
            packet.header.service_id != RESPONSE_SERVICE_ID && old(self).spec_stage()
                == HandshakeStage::AwaitNext ==> {
                &&& res matches Ok(HandshakeAction::Finish)
                &&& final(self).spec_stage() == HandshakeStage::Complete
            },
            packet.header.service_id != RESPONSE_SERVICE_ID && old(self).spec_stage()
                == HandshakeStage::AwaitConnect ==> match spec_connect_direct(
                packet.header.method_id,
                bytes_seq(packet.body),
            ) {
                Err(e) => {
                    &&& res matches Err(SessionError::Service(f)) && f == e
                    &&& final(self).spec_stage() == HandshakeStage::AwaitConnect
                },
                Ok(bindings) => {
                    ||| {
                        &&& res matches Ok(HandshakeAction::Respond(r)) && r.inner().header == response_header(
                            packet.header.token,
                            bytes_seq(r.inner().body).len(),
                        ) && is_connect_reply(bindings, bytes_seq(r.inner().body))
                        &&& final(self).spec_stage() == HandshakeStage::AwaitNext
                    }
                    ||| {
                        &&& res matches Err(SessionError::Service(f)) && f == RpcError::ClockOutOfRange
                        &&& final(self).spec_stage() == HandshakeStage::AwaitConnect
                    }
                },
            },
    {
        let (time, precise_time) = read_clock();
        let ghost before = *self;
        let res = self.on_packet_at(packet, time, precise_time);
        proof {
            if packet.header.service_id != RESPONSE_SERVICE_ID && before.spec_stage() == HandshakeStage::AwaitConnect {
                if let Ok(bindings) = spec_connect_direct(packet.header.method_id, bytes_seq(packet.body)) {
                    if let Some(p) = precise_time {
                        let r = spec_connect_response(bindings, time, p);
                        assert(r == spec_connect_response(bindings, time, p));
                    }
                }
            }
        }
        res
    }
}

/// The services a connected session runs.
#[derive(Debug, Default)]
pub struct Services {
    pub connect: ConnectionService,
    pub response: ResponseService,
}

/// Routes a session's packets to its services.
pub struct BNetRouter<Data> {
    self_id: u64,
    services: Option<Services>,
    packets_forward: Vec<u32>,
    pub packets_out: Vec<u32>,
    pub data: Data,
}

impl<Data> BNetRouter<Data> {
    pub closed spec fn spec_self_id(self) -> u64 {
        self.self_id
    }

    pub closed spec fn spec_has_services(self) -> bool {
        self.services is Some
    }

    pub closed spec fn spec_packets_forward(self) -> Seq<u32> {
        self.packets_forward@
    }

    /// The public field `packets_out`, as values. Verus keeps the fields of
    /// a struct with private fields out of reach outside this module, so
    /// contracts speak of the public fields through these.
    pub closed spec fn spec_packets_out(self) -> Seq<u32> {
        self.packets_out@
    }

    /// The public field `data`.
    pub closed spec fn spec_data(self) -> Data {
        self.data
    }

    /// A router for the session `self_id`, holding its services and data,
    /// with no packets queued.
    pub fn new(self_id: u64, services: Services, data: Data) -> (r: Self)
        ensures
            r.spec_self_id() == self_id,
            r.spec_has_services(),
            r.spec_packets_forward() == Seq::<u32>::empty(),
            r.spec_packets_out() == Seq::<u32>::empty(),
            r.spec_data() == data,
    {
        BNetRouter { self_id, services: Some(services), data, packets_forward: Vec::new(), packets_out: Vec::new() }
    }
}

/// State shared by all sessions of the lobby server.
pub struct LobbyState {
    last_signal: crate::Signal,
}

impl LobbyState {
    pub closed spec fn spec_last_signal(self) -> crate::Signal {
        self.last_signal
    }
}

impl Default for LobbyState {
    fn default() -> (s: Self)
        ensures
            s.spec_last_signal() == crate::Signal::NoSignal,
    {
        LobbyState { last_signal: crate::Signal::NoSignal }
    }
}

} // verus!

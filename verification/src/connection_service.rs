//! `bnet.protocol.connection.ConnectionService`: the service a client
//! talks to first, to connect and bind the other services.
use crate::buffers::{bytes_as_slice, bytes_from_vec, bytes_seq};
use crate::connection_proto::{
    connect_response_bytes, decode_connect_request, encode_connect_response, spec_decode_connect_request,
    BindResponse, ConnectRequest, ConnectRequestView, ConnectResponse, ConnectResponseView, ProcessId,
};
use crate::frame::BNetPacket;
use crate::rpc::{
    RPCResponder,
    fnv1a, hash_service_name, spec_validate_request, validate_method, MethodKind, RPCService, Request,
    RpcError, RPCResult, MAX_METHODS,
};
use crate::service_info::{
    exported_service_by_hash, imported_service_by_hash, services_exported, services_imported,
    ExportedServiceID,
};
use bytes::Bytes;
use vstd::prelude::*;
use vstd::string::StringSliceAdditionalSpecFns;

verus! {

/// The methods of the connection service.
#[derive(Debug, Clone, Copy, PartialEq, Eq, Structural)]
pub enum ConnectionMethod {
    Connect,
    Bind,
    Echo,
    ForceDisconnect,
    KeepAlive,
    Encrypt,
    RequestDisconnect,
}

impl MethodKind for ConnectionMethod {
    open spec fn spec_id(self) -> u32 {
        match self {
            ConnectionMethod::Connect => 1,
            ConnectionMethod::Bind => 2,
            ConnectionMethod::Echo => 3,
            ConnectionMethod::ForceDisconnect => 4,
            ConnectionMethod::KeepAlive => 5,
            ConnectionMethod::Encrypt => 6,
            ConnectionMethod::RequestDisconnect => 7,
        }
    }

    fn id(&self) -> (r: u32) {
        match self {
            ConnectionMethod::Connect => 1,
            ConnectionMethod::Bind => 2,
            ConnectionMethod::Echo => 3,
            ConnectionMethod::ForceDisconnect => 4,
            ConnectionMethod::KeepAlive => 5,
            ConnectionMethod::Encrypt => 6,
            ConnectionMethod::RequestDisconnect => 7,
        }
    }
}

/// The connection method with the given wire id, if any.
pub open spec fn connection_method_of(id: u32) -> Option<ConnectionMethod> {
    if id == 1 {
        Some(ConnectionMethod::Connect)
    } else if id == 2 {
        Some(ConnectionMethod::Bind)
    } else if id == 3 {
        Some(ConnectionMethod::Echo)
    } else if id == 4 {
        Some(ConnectionMethod::ForceDisconnect)
    } else if id == 5 {
        Some(ConnectionMethod::KeepAlive)
    } else if id == 6 {
        Some(ConnectionMethod::Encrypt)
    } else if id == 7 {
        Some(ConnectionMethod::RequestDisconnect)
    } else {
        None
    }
}

#[derive(Debug, Default)]
pub struct ConnectionService {}

impl ConnectionService {
    pub const METHOD_CONNECT: ConnectionMethod = ConnectionMethod::Connect;
    pub const METHOD_BIND: ConnectionMethod = ConnectionMethod::Bind;
    pub const METHOD_ECHO: ConnectionMethod = ConnectionMethod::Echo;
    pub const METHOD_FORCE_DISCONNECT: ConnectionMethod = ConnectionMethod::ForceDisconnect;
    pub const METHOD_KEEP_ALIVE: ConnectionMethod = ConnectionMethod::KeepAlive;
    pub const METHOD_ENCRYPT: ConnectionMethod = ConnectionMethod::Encrypt;
    pub const METHOD_REQUEST_DISCONNECT: ConnectionMethod = ConnectionMethod::RequestDisconnect;
}

impl RPCService for ConnectionService {
    type Method = ConnectionMethod;

    open spec fn spec_id() -> u32 {
        0
    }

    open spec fn spec_name() -> &'static str {
        "bnet.protocol.connection.ConnectionService"
    }

    open spec fn spec_methods() -> Seq<Option<(&'static str, ConnectionMethod)>> {
        seq![
            Some(("Connect", ConnectionMethod::Connect)),
            Some(("Bind", ConnectionMethod::Bind)),
            Some(("Echo", ConnectionMethod::Echo)),
            Some(("ForceDisconnect", ConnectionMethod::ForceDisconnect)),
            Some(("KeepAlive", ConnectionMethod::KeepAlive)),
            Some(("Encrypt", ConnectionMethod::Encrypt)),
            Some(("RequestDisconnect", ConnectionMethod::RequestDisconnect)),
            None,
            None,
            None,
        ]
    }

    fn get_id() -> (id: u32) {
        ExportedServiceID::ConnectionService.as_u32()
    }

    fn get_name() -> (name: &'static str) {
        "bnet.protocol.connection.ConnectionService"
    }

    fn get_hash() -> (hash: u32) {
        hash_service_name(Self::get_name())
    }

    fn get_methods() -> (methods: [Option<(&'static str, ConnectionMethod)>; MAX_METHODS]) {
        let methods = [
            Some(("Connect", Self::METHOD_CONNECT)),
            Some(("Bind", Self::METHOD_BIND)),
            Some(("Echo", Self::METHOD_ECHO)),
            Some(("ForceDisconnect", Self::METHOD_FORCE_DISCONNECT)),
            Some(("KeepAlive", Self::METHOD_KEEP_ALIVE)),
            Some(("Encrypt", Self::METHOD_ENCRYPT)),
            Some(("RequestDisconnect", Self::METHOD_REQUEST_DISCONNECT)),
            None,
            None,
            None,
        ];
        assert(methods@ =~= Self::spec_methods());
        methods
    }
}

/// The connection service's table holds exactly the methods with ids 1 to 7.
pub proof fn lemma_connection_method_table(id: u32)
    ensures
        crate::rpc::method_in_table(ConnectionService::spec_methods(), id) == connection_method_of(id),
{
    crate::rpc::lemma_table_lookup(ConnectionService::spec_methods(), id);
}

/// The outcome of checking that a request calls `Connect`.
pub open spec fn spec_is_connect_request(method_id: Option<u32>) -> Result<(), RpcError> {
    match method_id {
        None => Err(RpcError::UnknownRequest(ConnectionService::spec_name())),
        Some(m) => if m == 1 {
            Ok(())
        } else {
            Err(RpcError::InvalidRequest(m, ConnectionService::spec_name()))
        },
    }
}

/// Every service the client offers is one this server imports, bound to
/// the id the server expects for it.
pub open spec fn imported_bindings_match(services: Seq<crate::connection_proto::BoundService>) -> bool {
    forall|i: int|
        0 <= i < services.len() ==> {
            &&& #[trigger] services_imported().dom().contains(services[i].hash)
            &&& services_imported()[services[i].hash].spec_id() == services[i].id
        }
}

/// The id this server binds an exported service to: its id when the hash
/// is known, 0 otherwise.
pub open spec fn exported_binding(hash: u32) -> u32 {
    if services_exported().dom().contains(hash) {
        services_exported()[hash].spec_id()
    } else {
        0
    }
}

/// The ids to answer a bind request with, one per requested hash, or the
/// refusal of the request.
pub open spec fn spec_connect_bindings(request: ConnectRequestView) -> Result<Seq<u32>, RpcError> {
    match request.bind_request {
        None => Err(RpcError::InvalidRequest(1, ConnectionService::spec_name())),
        Some(b) => if !imported_bindings_match(b.exported_service) {
            Err(RpcError::InvalidRequest(1, ConnectionService::spec_name()))
        } else {
            Ok(b.imported_service_hash.map_values(|h: u32| exported_binding(h)))
        },
    }
}

/// A bind request is refused as soon as one service the client offers is
/// unknown to this server or bound to another id than the server expects,
/// whatever the other services are.
pub proof fn lemma_bindings_refuse_any_mismatch(request: ConnectRequestView, i: int)
    requires
        request.bind_request is Some,
        0 <= i < request.bind_request.unwrap().exported_service.len(),
        !(services_imported().dom().contains(request.bind_request.unwrap().exported_service[i].hash)
            && services_imported()[request.bind_request.unwrap().exported_service[i].hash].spec_id()
            == request.bind_request.unwrap().exported_service[i].id),
    ensures
        spec_connect_bindings(request) == Err::<Seq<u32>, RpcError>(
            RpcError::InvalidRequest(1, ConnectionService::spec_name()),
        ),
{
}

/// A bind request whose offered services all match this server's table is
/// accepted, and answered with one id per requested hash, in order: the
/// service's id when the hash is one this server exports, 0 otherwise.
pub proof fn lemma_bindings_accept_matching(request: ConnectRequestView)
    requires
        request.bind_request is Some,
        forall|i: int|
            0 <= i < request.bind_request.unwrap().exported_service.len() ==> {
                let svc = #[trigger] request.bind_request.unwrap().exported_service[i];
                &&& services_imported().dom().contains(svc.hash)
                &&& services_imported()[svc.hash].spec_id() == svc.id
            },
    ensures
        spec_connect_bindings(request) matches Ok(ids) && {
            let hashes = request.bind_request.unwrap().imported_service_hash;
            &&& ids.len() == hashes.len()
            &&& forall|k: int|
                0 <= k < hashes.len() ==> #[trigger] ids[k] == (if services_exported().dom().contains(hashes[k]) {
                    services_exported()[hashes[k]].spec_id()
                } else {
                    0
                })
        },
{
}

/// Without a bind request there is nothing to bind: the request is refused.
pub proof fn lemma_bindings_need_bind_request(request: ConnectRequestView)
    requires
        request.bind_request is None,
    ensures
        spec_connect_bindings(request) == Err::<Seq<u32>, RpcError>(
            RpcError::InvalidRequest(1, ConnectionService::spec_name()),
        ),
{
}

/// Label this server presents as its process id.
pub const SERVER_LABEL: u32 = 3868510373;

/// Label the server assigns to the client's process id.
pub const CLIENT_LABEL: u32 = 1255760;

/// The connect response for the given bindings and clock readings (seconds,
/// and nanoseconds, since the Unix epoch).
pub open spec fn spec_connect_response(bindings: Seq<u32>, time: i64, precise_time: i64) -> ConnectResponseView {
    ConnectResponseView {
        server_id: ProcessId { label: SERVER_LABEL, epoch: time as u32 },
        client_id: Some(ProcessId { label: CLIENT_LABEL, epoch: time as u32 }),
        bind_result: Some(0),
        bind_response: Some(bindings),
        server_time: Some(precise_time as u64),
    }
}

/// The response carries the clock readings it was built with: both process
/// ids have the seconds reading (cut to 32 bits) as their epoch, and the
/// server time is the nanoseconds reading; the bindings are the bind
/// response, and the bind result is success.
pub proof fn lemma_connect_response_readings(bindings: Seq<u32>, time: i64, precise_time: i64)
    ensures
        spec_connect_response(bindings, time, precise_time).server_id.epoch == time as u32,
        spec_connect_response(bindings, time, precise_time).client_id matches Some(c) && c.epoch == time as u32,
        spec_connect_response(bindings, time, precise_time).server_time == Some(precise_time as u64),
        spec_connect_response(bindings, time, precise_time).bind_response == Some(bindings),
        spec_connect_response(bindings, time, precise_time).bind_result == Some(0u32),
{
}

/// What answering a connect request decides, from the request's method id
/// and body: the bindings to reply with, or why the request is refused
/// (not `Connect`, undecodable body, bad bindings, in that order).
pub open spec fn spec_connect_direct(method_id: Option<u32>, body: Seq<u8>) -> Result<Seq<u32>, RpcError> {
    match spec_is_connect_request(method_id) {
        Err(e) => Err(e),
        Ok(_) => match spec_decode_connect_request(body) {
            Err(e) => Err(RpcError::ProtoDecode(e)),
            Ok(request) => spec_connect_bindings(request),
        },
    }
}

/// `reply` is the encoded connect response for these bindings, at some
/// clock reading.
pub open spec fn is_connect_reply(bindings: Seq<u32>, reply: Seq<u8>) -> bool {
    exists|time: i64, precise_time: i64|
        reply == connect_response_bytes(#[trigger] spec_connect_response(bindings, time, precise_time))
}

/// `chrono::Local::now().timestamp()`: the current time in seconds since
/// the Unix epoch. Nothing is promised of the value.
#[verifier::external_body]
fn local_timestamp() -> i64 {
    chrono::Local::now().timestamp()
}

/// `chrono::Local::now().timestamp_nanos_opt()`: the current time in
/// nanoseconds since the Unix epoch, or `None` for a time 64 bits of
/// nanoseconds cannot hold. Nothing is promised of the value.
#[verifier::external_body]
fn local_timestamp_nanos() -> Option<i64> {
    chrono::Local::now().timestamp_nanos_opt()
}

impl ConnectionService {
    /// Calls a method of the service. Only `Connect` has an operation, and
    /// it is not implemented; every other method is refused.
    pub fn call(&mut self, method: ConnectionMethod, payload: Bytes) -> (res: Result<RPCResult<BNetPacket>, RpcError>)
        requires
            method != ConnectionMethod::Connect,
        ensures
            res == Err::<RPCResult<BNetPacket>, RpcError>(RpcError::InvalidRequest(0, Self::spec_name())),
    {
        Err(RpcError::InvalidRequest(0, Self::get_name()))
    }

    /// Checks that a request calls `Connect`.
    pub fn is_connect_request(packet: &Request<BNetPacket>) -> (res: Result<(), RpcError>)
        ensures
            res == spec_is_connect_request(packet.inner().header.method_id),
    {
        let method = match packet.as_ref().into_inner().header.method_id {
            Some(m) => m,
            None => return Err(RpcError::UnknownRequest(Self::get_name())),
        };
        if method == Self::METHOD_CONNECT.id() {
            return Ok(());
        }
        Err(RpcError::InvalidRequest(method, Self::get_name()))
    }

    /// Checks a connect request's bindings and computes the ids of the
    /// services it asks for.
    pub fn connect_bindings(request: &ConnectRequest) -> (res: Result<Vec<u32>, RpcError>)
        ensures
            match res {
                Ok(ids) => spec_connect_bindings(request@) == Ok::<Seq<u32>, RpcError>(ids@),
                Err(e) => spec_connect_bindings(request@) == Err::<Seq<u32>, RpcError>(e),
            },
    {
        let bind_request = match &request.bind_request {
            Some(b) => b,
            None => return Err(RpcError::InvalidRequest(Self::METHOD_CONNECT.id(), Self::get_name())),
        };
        let imported_services = &bind_request.exported_service;
        let mut i: usize = 0;
        while i < imported_services.len()
            invariant
                i <= imported_services@.len(),
                imported_services@ == bind_request@.exported_service,
                request.bind_request == Some(*bind_request),
                imported_bindings_match(imported_services@.take(i as int)),
            decreases imported_services@.len() - i,
        {
            let s = imported_services[i];
            let matches = match imported_service_by_hash(s.hash) {
                Some(id) => id.as_u32() == s.id,
                None => false,
            };
            assert(s == imported_services@[i as int]);
            assert(matches == (services_imported().dom().contains(s.hash)
                && services_imported()[s.hash].spec_id() == s.id));
            if !matches {
                proof {
                    assert(!imported_bindings_match(imported_services@)) by {
                        if imported_bindings_match(imported_services@) {
                            assert(services_imported().dom().contains(imported_services@[i as int].hash));
                        }
                    }
                }
                return Err(RpcError::InvalidRequest(Self::METHOD_CONNECT.id(), Self::get_name()));
            }
            proof {
                assert forall|j: int| 0 <= j < i + 1 implies {
                    &&& #[trigger] services_imported().dom().contains(imported_services@.take(i + 1)[j].hash)
                    &&& services_imported()[imported_services@.take(i + 1)[j].hash].spec_id()
                        == imported_services@.take(i + 1)[j].id
                } by {
                    if j < i {
                        assert(imported_services@.take(i + 1)[j] == imported_services@.take(i as int)[j]);
                        assert(services_imported().dom().contains(imported_services@.take(i as int)[j].hash));
                    } else {
                        assert(imported_services@.take(i + 1)[j] == s);
                    }
                }
                assert(imported_bindings_match(imported_services@.take(i + 1)));
            }
            i = i + 1;
        }
        assert(imported_services@.take(i as int) == imported_services@);
        let exported_services = &bind_request.imported_service_hash;
        let mut bindings: Vec<u32> = Vec::new();
        let mut k: usize = 0;
        while k < exported_services.len()
            invariant
                k <= exported_services@.len(),
                exported_services@ == bind_request@.imported_service_hash,
                bindings@ == exported_services@.take(k as int).map_values(|h: u32| exported_binding(h)),
            decreases exported_services@.len() - k,
        {
            let id = match exported_service_by_hash(exported_services[k]) {
                Some(m) => m.as_u32(),
                None => 0,
            };
            bindings.push(id);
            assert(exported_services@.take(k as int + 1).map_values(|h: u32| exported_binding(h))
                =~= exported_services@.take(k as int).map_values(|h: u32| exported_binding(h)).push(id));
            k = k + 1;
        }
        assert(exported_services@.take(k as int) == exported_services@);
        Ok(bindings)
    }

    /// The connect response for the given bindings and clock readings.
    pub fn connect_response(bindings: Vec<u32>, time: i64, precise_time: i64) -> (r: ConnectResponse)
        ensures
            r@ == spec_connect_response(bindings@, time, precise_time),
    {
        ConnectResponse {
            server_id: ProcessId { label: SERVER_LABEL, epoch: time as u32 },
            client_id: Some(ProcessId { label: CLIENT_LABEL, epoch: time as u32 }),
            bind_result: Some(0),
            bind_response: Some(BindResponse { imported_service_id: bindings }),
            server_time: Some(precise_time as u64),
        }
    }

    /// The encoded connect response for the given bindings and clock
    /// readings.
    pub fn connect_response_body(bindings: Vec<u32>, time: i64, precise_time: i64) -> (body: Bytes)
        ensures
            bytes_seq(body) == connect_response_bytes(spec_connect_response(bindings@, time, precise_time)),
    {
        let ghost ids = bindings@;
        let response_msg = Self::connect_response(bindings, time, precise_time);
        let mut encoded: Vec<u8> = Vec::new();
        encode_connect_response(&response_msg, &mut encoded);
        assert(encoded@ =~= connect_response_bytes(spec_connect_response(ids, time, precise_time)));
        bytes_from_vec(encoded)
    }

    /// Answers the first request of a session, which must be `Connect`,
    /// with the clock read as `time` (seconds) and `precise_time`
    /// (nanoseconds, `None` when they do not fit 64 bits): decodes its body
    /// as a connect request, checks the services the client binds, and
    /// encodes the connect response that binds the services it asks for.
    /// The request comes back unchanged with the response body.
    pub fn connect_direct_at(packet: Request<BNetPacket>, time: i64, precise_time: Option<i64>) -> (res: Result<
        (Request<BNetPacket>, Option<Bytes>),
        RpcError,
    >)
        ensures
            match spec_connect_direct(packet.inner().header.method_id, bytes_seq(packet.inner().body)) {
                Err(e) => res == Err::<(Request<BNetPacket>, Option<Bytes>), RpcError>(e),
                Ok(bindings) => match precise_time {
                    None => res == Err::<(Request<BNetPacket>, Option<Bytes>), RpcError>(RpcError::ClockOutOfRange),
                    Some(p) => res matches Ok((q, Some(body))) && q == packet && bytes_seq(body)
                        == connect_response_bytes(spec_connect_response(bindings, time, p)),
                },
            },
    {
        if let Err(e) = Self::is_connect_request(&packet) {
            return Err(e);
        }
        let request = match decode_connect_request(bytes_as_slice(&packet.as_ref().into_inner().body)) {
            Ok(r) => r,
            Err(e) => return Err(RpcError::ProtoDecode(e)),
        };
        let bindings = match Self::connect_bindings(&request) {
            Ok(b) => b,
            Err(e) => return Err(e),
        };
        let precise_time = match precise_time {
            Some(t) => t,
            None => return Err(RpcError::ClockOutOfRange),
        };
        let body = Self::connect_response_body(bindings, time, precise_time);
        Ok((packet, Some(body)))
    }

    /// Answers the first request of a session, which must be `Connect`, as
    /// `connect_direct_at` does with the clock read now. A clock reading
    /// that nanoseconds cannot hold refuses the request.
    pub fn connect_direct(packet: Request<BNetPacket>) -> (res: Result<(Request<BNetPacket>, Option<Bytes>), RpcError>)
        ensures
            match spec_connect_direct(packet.inner().header.method_id, bytes_seq(packet.inner().body)) {
                Err(e) => res == Err::<(Request<BNetPacket>, Option<Bytes>), RpcError>(e),
                Ok(bindings) => (res matches Ok((p, Some(body))) && p == packet && is_connect_reply(
                    bindings,
                    bytes_seq(body),
                )) || res == Err::<(Request<BNetPacket>, Option<Bytes>), RpcError>(RpcError::ClockOutOfRange),
            },
    {
        let (time, precise_time) = read_clock();
        let res = Self::connect_direct_at(packet, time, precise_time);
        proof {
            if let Ok(bindings) = spec_connect_direct(packet.inner().header.method_id, bytes_seq(packet.inner().body)) {
                if let Some(p) = precise_time {
                    let r = spec_connect_response(bindings, time, p);
                    assert(r == spec_connect_response(bindings, time, p));
                }
            }
        }
        res
    }
}

/// The clock read now: seconds and nanoseconds since the Unix epoch, the
/// nanoseconds `None` when they do not fit 64 bits.
pub(crate) fn read_clock() -> (r: (i64, Option<i64>)) {
    let time = local_timestamp();
    let precise_time = local_timestamp_nanos();
    (time, precise_time)
}

impl RPCResponder for ConnectionService {
    /// Validates the method of a request to this service.
    fn validate_request(packet: &Request<BNetPacket>) -> (res: Result<ConnectionMethod, RpcError>)
        ensures
            res == (match packet.inner().header.method_id {
                None => Err(RpcError::UnknownRequest(Self::spec_name())),
                Some(id) => match connection_method_of(id) {
                    Some(m) => Ok(m),
                    None => Err(RpcError::InvalidRequest(id, Self::spec_name())),
                },
            }),
    {
        let method_id = packet.as_ref().into_inner().header.method_id;
        proof {
            if let Some(id) = method_id {
                lemma_connection_method_table(id);
            }
        }
        validate_method::<ConnectionService>(method_id)
    }
}

} // verus!

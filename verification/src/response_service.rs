//! `bnet.protocol.ResponseService`: the pseudo-service that carries the
//! answers to requests, and the packet helpers that tell requests and
//! responses apart and build responses.
use crate::buffers::{bytes_len, bytes_seq};
use crate::frame::BNetPacket;
use crate::header::Header;
use crate::rpc::{
    RPCResponder,
    fnv1a, hash_service_name, method_in_table, spec_validate_request, validate_method, MethodKind,
    RPCService, Request, Response, RpcError, MAX_METHODS,
};
use crate::service_info::ExportedServiceID;
use bytes::Bytes;
use vstd::prelude::*;
use vstd::string::StringSliceAdditionalSpecFns;

verus! {

/// The methods of the response service.
#[derive(Debug, Clone, Copy, PartialEq, Eq, Structural)]
pub enum ResponseMethod {
    Respond,
}

impl MethodKind for ResponseMethod {
    open spec fn spec_id(self) -> u32 {
        0
    }

    fn id(&self) -> (r: u32) {
        0
    }
}

#[derive(Debug, Default)]
pub struct ResponseService {}

impl ResponseService {
    pub const METHOD_RESPOND: ResponseMethod = ResponseMethod::Respond;
}

/// The service id that marks a packet as a response.
pub const RESPONSE_SERVICE_ID: u32 = 254;

impl RPCService for ResponseService {
    type Method = ResponseMethod;

    open spec fn spec_id() -> u32 {
        RESPONSE_SERVICE_ID
    }

    open spec fn spec_name() -> &'static str {
        "bnet.protocol.ResponseService"
    }

    open spec fn spec_methods() -> Seq<Option<(&'static str, ResponseMethod)>> {
        seq![Some(("Respond", ResponseMethod::Respond)), None, None, None, None, None, None, None, None, None]
    }

    fn get_id() -> (id: u32) {
        ExportedServiceID::ResponseService.as_u32()
    }

    fn get_name() -> (name: &'static str) {
        "bnet.protocol.ResponseService"
    }

    fn get_hash() -> (hash: u32) {
        hash_service_name(Self::get_name())
    }

    fn get_methods() -> (methods: [Option<(&'static str, ResponseMethod)>; MAX_METHODS]) {
        let methods = [
            Some(("Respond", Self::METHOD_RESPOND)),
            None,
            None,
            None,
            None,
            None,
            None,
            None,
            None,
            None,
        ];
        assert(methods@ =~= Self::spec_methods());
        methods
    }
}

/// The response service's table holds exactly `Respond`, with id 0.
pub proof fn lemma_response_method_table(id: u32)
    ensures
        method_in_table(ResponseService::spec_methods(), id) == (if id == 0 {
            Some(ResponseMethod::Respond)
        } else {
            None
        }),
{
    crate::rpc::lemma_table_lookup(ResponseService::spec_methods(), id);
}

/// The header of a response to a request with the given token: addressed
/// to the response service, method `Respond`, announcing a body of
/// `body_len` bytes (the length is cast to 32 bits).
pub open spec fn response_header(token: u32, body_len: nat) -> Header {
    Header {
        service_id: RESPONSE_SERVICE_ID,
        method_id: Some(0),
        token,
        object_id: None,
        size: Some(body_len as u32),
        status: None,
    }
}

fn make_response(token: u32, body: Bytes) -> (r: Response<BNetPacket>)
    ensures
        r.inner().header == response_header(token, bytes_seq(body).len()),
        r.inner().body == body,
{
    let method_id = ResponseService::METHOD_RESPOND.id();
    let size = bytes_len(&body) as u32;
    let header = Header {
        service_id: ResponseService::get_id(),
        method_id: Some(method_id),
        token: token,
        object_id: None,
        size: Some(size),
        status: None,
    };
    Response::new(BNetPacket::new(header, body))
}

impl BNetPacket {
    /// A packet is a request unless it is a response.
    pub fn try_as_request(self) -> (res: Result<Request<Self>, Self>)
        ensures
            self.header.service_id != RESPONSE_SERVICE_ID ==> (res matches Ok(r) && r.inner() == self),
            self.header.service_id == RESPONSE_SERVICE_ID ==> res == Err::<Request<Self>, Self>(self),
    {
        match self.try_as_response() {
            Ok(response) => Err(response.into_inner()),
            Err(packet) => Ok(Request::new(packet)),
        }
    }

    /// A packet is a response when it is addressed to the response
    /// service.
    pub fn try_as_response(self) -> (res: Result<Response<Self>, Self>)
        ensures
            self.header.service_id == RESPONSE_SERVICE_ID ==> (res matches Ok(r) && r.inner() == self),
            self.header.service_id != RESPONSE_SERVICE_ID ==> res == Err::<Response<Self>, Self>(self),
    {
        if self.header.service_id == ResponseService::get_id() {
            Ok(Response::new(self))
        } else {
            Err(self)
        }
    }
}

impl Request<BNetPacket> {
    /// The response to this request, carrying `body`: same token, addressed
    /// to the response service.
    pub fn build_response(self, body: Bytes) -> (r: Response<BNetPacket>)
        ensures
            r.inner().header == response_header(self.inner().header.token, bytes_seq(body).len()),
            r.inner().body == body,
    {
        let packet = self.into_inner();
        make_response(packet.header.token, body)
    }

    /// The same as `build_response`, as the session code names it.
    pub fn into_response(self, payload: Bytes) -> (r: Response<BNetPacket>)
        ensures
            r.inner().header == response_header(self.inner().header.token, bytes_seq(payload).len()),
            r.inner().body == payload,
    {
        let packet = self.into_inner();
        make_response(packet.header.token, payload)
    }
}

/// A response built for a request travels intact: framed and read back
/// by a codec between frames, it is the same response, the codec sees it
/// as addressed to the response service, and that service accepts its
/// method.
pub proof fn lemma_response_travels(
    c: crate::frame::BNetCodec,
    token: u32,
    body: Seq<u8>,
    rest: Seq<u8>,
)
    requires
        c.is_idle(),
        body.len() <= u32::MAX,
    ensures
        crate::frame::decode_step(c, crate::frame::frame_bytes(response_header(token, body.len()), body) + rest)
            == (
            crate::frame::BNetCodec::with_state(None, None, Some(body.len() as u32)),
            rest,
            Ok::<Option<(Header, Seq<u8>)>, crate::frame::FrameError>(
                Some((response_header(token, body.len()), body)),
            ),
        ),
        response_header(token, body.len()).service_id == RESPONSE_SERVICE_ID,
        spec_validate_request::<ResponseService>(response_header(token, body.len()).method_id)
            == Ok::<ResponseMethod, RpcError>(ResponseMethod::Respond),
{
    crate::header::lemma_header_bytes_len(response_header(token, body.len()));
    crate::frame::lemma_decode_frame(c, response_header(token, body.len()), body, rest);
    lemma_response_method_table(0);
}

impl RPCResponder for ResponseService {
    /// Validates the method of a request to this service.
    fn validate_request(packet: &Request<BNetPacket>) -> (res: Result<ResponseMethod, RpcError>)
        ensures
            res == (match packet.inner().header.method_id {
                None => Err(RpcError::UnknownRequest(Self::spec_name())),
                Some(id) => if id == 0 {
                    Ok(ResponseMethod::Respond)
                } else {
                    Err(RpcError::InvalidRequest(id, Self::spec_name()))
                },
            }),
    {
        let method_id = packet.as_ref().into_inner().header.method_id;
        proof {
            if let Some(id) = method_id {
                lemma_response_method_table(id);
            }
        }
        validate_method::<ResponseService>(method_id)
    }
}

} // verus!

use bytes::Bytes;
use incite::connection_proto::{
    decode_connect_request, encode_connect_response, BindRequest, BindResponse, BoundService,
    ConnectRequest, ConnectResponse, ProcessId,
};
use incite::connection_service::{ConnectionMethod, ConnectionService};
use incite::frame::BNetPacket;
use incite::header::Header;
use incite::response_service::{ResponseMethod, ResponseService};
use incite::rpc::{RPCResponder, RPCService, Request, RpcError};
use incite::wire::DecodeFault;

fn request(method_id: Option<u32>, token: u32, body: Vec<u8>) -> Request<BNetPacket> {
    let header = Header { service_id: 0, method_id, token, object_id: None, size: Some(body.len() as u32), status: None };
    Request::new(BNetPacket::new(header, Bytes::from(body)))
}

/// ConnectRequest binding AuthenticationServer (asked) and
/// ChannelSubscriber with id 6 (offered).
const CONNECT_BODY: [u8; 17] = [18, 15, 10, 4, 1, 252, 236, 13, 18, 7, 13, 148, 128, 140, 191, 16, 6];

#[test]
fn connection_method_table() {
    let methods = ConnectionService::get_methods();
    assert_eq!(methods[0].map(|(n, m)| (n, m)), Some(("Connect", ConnectionMethod::Connect)));
    assert_eq!(methods[6].map(|(n, _)| n), Some("RequestDisconnect"));
    assert!(methods[7].is_none() && methods[8].is_none() && methods[9].is_none());
    let response = ResponseService::get_methods();
    assert_eq!(response[0], Some(("Respond", ResponseMethod::Respond)));
    assert!(response[1..].iter().all(|m| m.is_none()));
}

#[test]
fn validate_request_cases() {
    assert_eq!(ConnectionService::validate_request(&request(Some(3), 0, vec![])).unwrap(), ConnectionMethod::Echo);
    assert_eq!(ConnectionService::validate_request(&request(Some(7), 0, vec![])).unwrap(), ConnectionMethod::RequestDisconnect);
    match ConnectionService::validate_request(&request(None, 0, vec![])) {
        Err(RpcError::UnknownRequest(name)) => assert_eq!(name, "bnet.protocol.connection.ConnectionService"),
        other => panic!("{:?}", other),
    }
    match ConnectionService::validate_request(&request(Some(8), 0, vec![])) {
        Err(RpcError::InvalidRequest(8, name)) => assert_eq!(name, "bnet.protocol.connection.ConnectionService"),
        other => panic!("{:?}", other),
    }
    match ConnectionService::validate_request(&request(Some(0), 0, vec![])) {
        Err(RpcError::InvalidRequest(0, _)) => {},
        other => panic!("{:?}", other),
    }
    assert_eq!(ResponseService::validate_request(&request(Some(0), 0, vec![])).unwrap(), ResponseMethod::Respond);
    match ResponseService::validate_request(&request(Some(1), 0, vec![])) {
        Err(RpcError::InvalidRequest(1, name)) => assert_eq!(name, "bnet.protocol.ResponseService"),
        other => panic!("{:?}", other),
    }
}

#[test]
fn is_connect_request_cases() {
    assert!(ConnectionService::is_connect_request(&request(Some(1), 0, vec![])).is_ok());
    assert!(matches!(ConnectionService::is_connect_request(&request(Some(2), 0, vec![])), Err(RpcError::InvalidRequest(2, _))));
    assert!(matches!(ConnectionService::is_connect_request(&request(None, 0, vec![])), Err(RpcError::UnknownRequest(_))));
}

#[test]
fn call_refuses_other_methods() {
    let mut svc = ConnectionService::default();
    assert!(matches!(svc.call(ConnectionMethod::Bind, Bytes::new()), Err(RpcError::InvalidRequest(0, _))));
}

#[test]
fn decode_connect_request_fields() {
    let r = decode_connect_request(&CONNECT_BODY).unwrap();
    assert!(r.client_id.is_none());
    let b = r.bind_request.unwrap();
    assert_eq!(b.imported_service_hash, vec![233634817]);
    assert_eq!(b.exported_service, vec![BoundService { hash: 3213656212, id: 6 }]);
}

#[test]
fn decode_connect_request_merges_and_unpacked() {
    // client_id twice (merged), then bind_request with an unpacked hash.
    let bytes = [0x0A, 2, 0x08, 5, 0x0A, 2, 0x10, 6, 0x12, 5, 0x0D, 1, 0, 0, 0];
    let r = decode_connect_request(&bytes).unwrap();
    assert_eq!(r.client_id, Some(ProcessId { label: 5, epoch: 6 }));
    assert_eq!(r.bind_request.unwrap().imported_service_hash, vec![1]);
}

#[test]
fn decode_connect_request_errors() {
    // nested region whose last field runs past it
    assert_eq!(decode_connect_request(&[0x0A, 1, 0x08, 5]).unwrap_err(), DecodeFault::DelimitedLengthExceeded);
    // bind_request sent as a varint
    assert_eq!(decode_connect_request(&[0x10, 1]).unwrap_err(), DecodeFault::InvalidWireType);
    // packed hashes not a multiple of four
    assert_eq!(decode_connect_request(&[0x12, 4, 0x0A, 2, 1, 2]).unwrap_err(), DecodeFault::BufferUnderflow);
}

#[test]
fn connect_bindings_maps_hashes() {
    let req = ConnectRequest {
        client_id: None,
        bind_request: Some(BindRequest {
            imported_service_hash: vec![233634817, 12345, 3625566374, 1041835658],
            exported_service: vec![BoundService { hash: 3213656212, id: 6 }, BoundService { hash: 3162975266, id: 11 }],
        }),
    };
    assert_eq!(ConnectionService::connect_bindings(&req).unwrap(), vec![3, 0, 254, 17]);
}

#[test]
fn connect_bindings_refusals() {
    let none = ConnectRequest { client_id: None, bind_request: None };
    assert!(matches!(ConnectionService::connect_bindings(&none), Err(RpcError::InvalidRequest(1, _))));
    let wrong_id = ConnectRequest {
        client_id: None,
        bind_request: Some(BindRequest {
            imported_service_hash: vec![],
            exported_service: vec![BoundService { hash: 3213656212, id: 7 }],
        }),
    };
    assert!(matches!(ConnectionService::connect_bindings(&wrong_id), Err(RpcError::InvalidRequest(1, _))));
    let unknown = ConnectRequest {
        client_id: None,
        bind_request: Some(BindRequest { imported_service_hash: vec![], exported_service: vec![BoundService { hash: 42, id: 1 }] }),
    };
    assert!(matches!(ConnectionService::connect_bindings(&unknown), Err(RpcError::InvalidRequest(1, _))));
}

#[test]
fn connect_response_encoding_exact() {
    let r = ConnectionService::connect_response(vec![3, 0], 1, 2);
    assert_eq!(r.server_id, ProcessId { label: 3868510373, epoch: 1 });
    assert_eq!(r.client_id, Some(ProcessId { label: 1255760, epoch: 1 }));
    assert_eq!(r.bind_result, Some(0));
    assert_eq!(r.server_time, Some(2));
    let mut out = Vec::new();
    encode_connect_response(&r, &mut out);
    let expected: Vec<u8> = vec![
        0x0A, 8, 0x08, 0xA5, 0x91, 0xD3, 0xB4, 0x0E, 0x10, 1, // server_id
        0x12, 6, 0x08, 0xD0, 0xD2, 0x4C, 0x10, 1, // client_id
        0x18, 0, // bind_result
        0x22, 4, 0x0A, 2, 3, 0, // bind_response (packed ids)
        0x30, 2, // server_time
    ];
    assert_eq!(out, expected);
    let body = ConnectionService::connect_response_body(vec![3, 0], 1, 2);
    assert_eq!(&body[..], &expected[..]);
}

#[test]
fn bind_response_empty_has_no_field() {
    let r = ConnectResponse {
        server_id: ProcessId { label: 0, epoch: 0 },
        client_id: None,
        bind_result: None,
        bind_response: Some(BindResponse { imported_service_id: vec![] }),
        server_time: None,
    };
    let mut out = Vec::new();
    encode_connect_response(&r, &mut out);
    assert_eq!(out, vec![0x0A, 4, 0x08, 0, 0x10, 0, 0x22, 0]);
}

#[test]
fn connect_direct_answers_connect() {
    let (req, body) = ConnectionService::connect_direct(request(Some(1), 9, CONNECT_BODY.to_vec())).unwrap();
    assert_eq!(req.into_inner().header.token, 9);
    let body = body.unwrap();
    // server_id first, and the bind response for AuthenticationServer (id 3)
    assert_eq!(body[0], 0x0A);
    let needle = [0x22, 3, 0x0A, 1, 3];
    assert!(body.windows(needle.len()).any(|w| w == needle));
}

#[test]
fn connect_direct_refusals() {
    assert!(matches!(ConnectionService::connect_direct(request(Some(2), 0, CONNECT_BODY.to_vec())), Err(RpcError::InvalidRequest(2, _))));
    assert!(matches!(ConnectionService::connect_direct(request(Some(1), 0, vec![0x80])), Err(RpcError::ProtoDecode(DecodeFault::InvalidVarint))));
    assert!(matches!(ConnectionService::connect_direct(request(Some(1), 0, vec![])), Err(RpcError::InvalidRequest(1, _))));
}

#[test]
fn connect_direct_wrong_wire_type() {
    assert!(matches!(
        ConnectionService::connect_direct(request(Some(1), 0, vec![0x08, 1])),
        Err(RpcError::ProtoDecode(DecodeFault::InvalidWireType))
    ));
}

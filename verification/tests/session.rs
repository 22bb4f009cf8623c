use bytes::{Bytes, BytesMut};
use incite::frame::BNetCodec;
use incite::response_service::{ResponseMethod, ResponseService};
use incite::rpc::RPCResponder;
use incite::frame::BNetPacket;
use incite::header::Header;
use incite::proto_modules::{plan_proto_modules, ModuleOp};
use incite::rpc::{Request, Response, Route};
use incite::session::{BNetRouter, Handshake, HandshakeAction, HandshakeStage, LobbyState, Services, SessionError};
use incite::Signal;

const CONNECT_BODY: [u8; 17] = [18, 15, 10, 4, 1, 252, 236, 13, 18, 7, 13, 148, 128, 140, 191, 16, 6];

fn packet(service_id: u32, method_id: Option<u32>, token: u32, body: Vec<u8>) -> BNetPacket {
    let header = Header { service_id, method_id, token, object_id: None, size: Some(body.len() as u32), status: None };
    BNetPacket::new(header, Bytes::from(body))
}

#[test]
fn request_response_split() {
    let p = packet(254, Some(0), 1, vec![]);
    assert!(p.try_as_request().is_err());
    let p = packet(254, Some(0), 1, vec![]);
    assert_eq!(p.try_as_response().unwrap().into_inner().header.token, 1);
    let p = packet(3, Some(1), 2, vec![]);
    assert_eq!(p.try_as_request().unwrap().into_inner().header.service_id, 3);
    let p = packet(3, Some(1), 2, vec![]);
    assert_eq!(p.try_as_response().unwrap_err().header.token, 2);
}

#[test]
fn build_response_keeps_token() {
    let req = Request::new(packet(5, Some(9), 77, vec![1, 2, 3]));
    let resp = req.build_response(Bytes::from(vec![4, 5]));
    let p = resp.into_inner();
    assert_eq!(p.header, Header { service_id: 254, method_id: Some(0), token: 77, object_id: None, size: Some(2), status: None });
    assert_eq!(&p.body[..], &[4, 5][..]);
    let req = Request::new(packet(5, Some(9), 78, vec![]));
    let p = req.into_response(Bytes::new()).into_inner();
    assert_eq!(p.header.token, 78);
    assert_eq!(p.header.size, Some(0));
}

#[test]
fn envelopes() {
    let r = Route::new(3u32);
    assert_eq!(*r.as_ref().into_inner(), 3);
    assert_eq!(r.into_request().into_inner(), 3);
    let resp = Response::new(4u32);
    assert_eq!(*resp.as_ref().into_inner(), 4);
}

#[test]
fn from_bnet_refuses_responses() {
    assert!(matches!(Request::from_bnet(packet(254, Some(0), 1, vec![])), Err(SessionError::MissingRequest)));
    assert_eq!(Request::from_bnet(packet(0, Some(1), 1, vec![])).unwrap().into_inner().header.method_id, Some(1));
}

#[test]
fn handshake_flow() {
    let mut hs = Handshake::new();
    assert_eq!(hs.stage(), HandshakeStage::AwaitConnect);
    let action = hs.on_packet(packet(0, Some(1), 11, CONNECT_BODY.to_vec())).unwrap();
    match action {
        HandshakeAction::Respond(r) => {
            let p = r.into_inner();
            assert_eq!(p.header.service_id, 254);
            assert_eq!(p.header.token, 11);
            assert_eq!(p.header.size, Some(p.body.len() as u32));
        },
        _ => panic!("expected a response"),
    }
    assert_eq!(hs.stage(), HandshakeStage::AwaitNext);
    assert!(matches!(hs.on_packet(packet(3, Some(1), 12, vec![])), Ok(HandshakeAction::Finish)));
    assert_eq!(hs.stage(), HandshakeStage::Complete);
}

#[test]
fn handshake_refusals() {
    let mut hs = Handshake::new();
    assert!(matches!(hs.on_packet(packet(254, Some(0), 1, vec![])), Err(SessionError::MissingRequest)));
    assert_eq!(hs.stage(), HandshakeStage::AwaitConnect);
    assert!(matches!(hs.on_packet(packet(0, Some(5), 1, vec![])), Err(SessionError::Service(_))));
    assert_eq!(hs.stage(), HandshakeStage::AwaitConnect);
}

#[test]
fn router_and_lobby_state() {
    let r = BNetRouter::new(17, Services::default(), "data");
    assert_eq!(r.data, "data");
    assert!(r.packets_out.is_empty());
    let _state = LobbyState::default();
    assert_eq!(Signal::NoSignal, Signal::NoSignal);
}

fn names(path: &[&str]) -> Vec<Vec<u8>> {
    path.iter().map(|p| p.as_bytes().to_vec()).collect()
}

fn render(ops: &[ModuleOp], files: &[Vec<Vec<u8>>]) -> String {
    let mut out = String::new();
    for op in ops {
        match op {
            ModuleOp::Open(n) => out.push_str(&format!("pub mod {} {{\n", String::from_utf8(n.clone()).unwrap())),
            ModuleOp::Close => out.push_str("}\n"),
            ModuleOp::Copy(i) => {
                let stem: Vec<String> = files[*i].iter().map(|p| String::from_utf8(p.clone()).unwrap()).collect();
                out.push_str(&format!("// {}\n", stem.join(".")));
            },
        }
    }
    out
}

#[test]
fn proto_module_plan() {
    let files = vec![
        names(&["bnet", "protocol"]),
        names(&["bnet", "protocol", "connection"]),
        names(&["bnet", "protocol", "game_master"]),
        names(&["other"]),
    ];
    let ops = plan_proto_modules(&files);
    let text = render(&ops, &files);
    let expected = "pub mod other {\n// other\n}\npub mod bnet {\npub mod protocol {\npub mod game_master {\n// bnet.protocol.game_master\n}\npub mod connection {\n// bnet.protocol.connection\n}\n// bnet.protocol\n}\n}\n";
    assert_eq!(text, expected);
}

#[test]
fn proto_module_plan_empty() {
    assert!(plan_proto_modules(&vec![]).is_empty());
}

#[test]
fn built_response_travels_through_codec() {
    let req = Request::new(packet(0, Some(1), 42, vec![]));
    let resp = req.build_response(Bytes::from(vec![1, 2, 3, 4]));
    let sent = resp.into_inner();
    let sent_header = sent.header;
    let mut codec = BNetCodec::new();
    let mut wire = BytesMut::new();
    codec.encode(sent, &mut wire).unwrap();
    let got = codec.decode(&mut wire).unwrap().unwrap();
    assert_eq!(got.header, sent_header);
    assert_eq!(&got.body[..], &[1, 2, 3, 4][..]);
    let got = got.try_as_response().unwrap_or_else(|_| panic!("not a response"));
    let as_request = Request::new(got.into_inner());
    assert_eq!(ResponseService::validate_request(&as_request).unwrap(), ResponseMethod::Respond);
}

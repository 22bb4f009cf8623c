//! The `bnet.protocol.connection` messages of the handshake and their
//! protobuf encoding.
//!
//! - `ProcessId`: 1 `label` uint32, 2 `epoch` uint32.
//! - `BoundService`: 1 `hash` fixed32, 2 `id` uint32.
//! - `BindRequest`: 1 `imported_service_hash` repeated fixed32 (packed),
//!   2 `exported_service` repeated `BoundService`.
//! - `ConnectRequest`: 1 `client_id` optional `ProcessId`, 2 `bind_request`
//!   optional `BindRequest`.
//! - `BindResponse`: 1 `imported_service_id` repeated uint32 (packed).
//! - `ConnectResponse`: 1 `server_id` `ProcessId`, 2 `client_id` optional
//!   `ProcessId`, 3 `bind_result` optional uint32, 4 `bind_response`
//!   optional `BindResponse`, 6 `server_time` optional uint64.
use crate::wire::{
    lemma_reader_bounds, read_delimited, read_fixed32,
    read_fixed32_field, read_key, read_varint_field, skip_field, spec_read_delimited,
    spec_read_fixed32, spec_read_fixed32_field, spec_read_key, spec_read_varint_field,
    spec_skip_field, varint_bytes, key_bytes, delimited_field_bytes, varint_field_bytes,
    put_varint_field, put_delimited_field, pb_encode_key, pb_encode_varint, DecodeFault, WireKind,
    le32_at, lemma_varint_roundtrip, lemma_varint_u64_len, varint_at,
};
use vstd::prelude::*;

verus! {

#[derive(Debug, Clone, Copy, PartialEq, Eq, Structural)]
pub struct ProcessId {
    pub label: u32,
    pub epoch: u32,
}

#[derive(Debug, Clone, Copy, PartialEq, Eq, Structural)]
pub struct BoundService {
    pub hash: u32,
    pub id: u32,
}

#[derive(Debug)]
pub struct BindRequest {
    pub imported_service_hash: Vec<u32>,
    pub exported_service: Vec<BoundService>,
}

#[derive(Debug)]
pub struct ConnectRequest {
    pub client_id: Option<ProcessId>,
    pub bind_request: Option<BindRequest>,
}

#[derive(Debug)]
pub struct BindResponse {
    pub imported_service_id: Vec<u32>,
}

#[derive(Debug)]
pub struct ConnectResponse {
    pub server_id: ProcessId,
    pub client_id: Option<ProcessId>,
    pub bind_result: Option<u32>,
    pub bind_response: Option<BindResponse>,
    pub server_time: Option<u64>,
}

/// A `BindRequest` as values.
pub struct BindRequestView {
    pub imported_service_hash: Seq<u32>,
    pub exported_service: Seq<BoundService>,
}

/// A `ConnectRequest` as values.
pub struct ConnectRequestView {
    pub client_id: Option<ProcessId>,
    pub bind_request: Option<BindRequestView>,
}

impl View for BindRequest {
    type V = BindRequestView;

    open spec fn view(&self) -> BindRequestView {
        BindRequestView {
            imported_service_hash: self.imported_service_hash@,
            exported_service: self.exported_service@,
        }
    }
}

impl View for ConnectRequest {
    type V = ConnectRequestView;

    open spec fn view(&self) -> ConnectRequestView {
        ConnectRequestView {
            client_id: self.client_id,
            bind_request: match self.bind_request {
                Some(b) => Some(b@),
                None => None,
            },
        }
    }
}

pub open spec fn empty_process_id() -> ProcessId {
    ProcessId { label: 0, epoch: 0 }
}

pub open spec fn empty_bound_service() -> BoundService {
    BoundService { hash: 0, id: 0 }
}

pub open spec fn empty_bind_request() -> BindRequestView {
    BindRequestView { imported_service_hash: Seq::empty(), exported_service: Seq::empty() }
}

pub open spec fn empty_connect_request() -> ConnectRequestView {
    ConnectRequestView { client_id: None, bind_request: None }
}

// ---------------------------------------------------------------------------
// Decoding: spec
// ---------------------------------------------------------------------------
/// The start and end of a length-delimited value, once its wire type has
/// been checked.
pub open spec fn spec_read_message_region(kind: WireKind, s: Seq<u8>, pos: int) -> Result<(int, int), DecodeFault> {
    if kind != WireKind::LengthDelimited {
        Err(DecodeFault::InvalidWireType)
    } else {
        spec_read_delimited(s, pos)
    }
}

pub open spec fn process_id_field(p: ProcessId, tag: u32, kind: WireKind, s: Seq<u8>, pos: int) -> Result<
    (ProcessId, int),
    DecodeFault,
> {
    if tag == 1 || tag == 2 {
        match spec_read_varint_field(kind, s, pos) {
            Err(e) => Err(e),
            Ok((v, q)) => Ok(
                (
                    if tag == 1 {
                        ProcessId { label: v as u32, ..p }
                    } else {
                        ProcessId { epoch: v as u32, ..p }
                    },
                    q,
                ),
            ),
        }
    } else {
        match spec_skip_field(kind, s, pos) {
            Err(e) => Err(e),
            Ok(q) => Ok((p, q)),
        }
    }
}

pub open spec fn process_id_merge(p: ProcessId, s: Seq<u8>, pos: int, end: int) -> Result<ProcessId, DecodeFault>
    decreases s.len() - pos,
{
    if pos >= end {
        if pos == end {
            Ok(p)
        } else {
            Err(DecodeFault::DelimitedLengthExceeded)
        }
    } else {
        match spec_read_key(s, pos) {
            Err(e) => Err(e),
            Ok((tag, kind, p1)) => match process_id_field(p, tag, kind, s, p1) {
                Err(e) => Err(e),
                Ok((p2, q)) => {
                    proof {
                        lemma_reader_bounds(s, pos, kind);
                        lemma_reader_bounds(s, p1, kind);
                    }
                    process_id_merge(p2, s, q, end)
                },
            },
        }
    }
}

pub open spec fn bound_service_field(b: BoundService, tag: u32, kind: WireKind, s: Seq<u8>, pos: int) -> Result<
    (BoundService, int),
    DecodeFault,
> {
    if tag == 1 {
        match spec_read_fixed32_field(kind, s, pos) {
            Err(e) => Err(e),
            Ok((v, q)) => Ok((BoundService { hash: v, ..b }, q)),
        }
    } else if tag == 2 {
        match spec_read_varint_field(kind, s, pos) {
            Err(e) => Err(e),
            Ok((v, q)) => Ok((BoundService { id: v as u32, ..b }, q)),
        }
    } else {
        match spec_skip_field(kind, s, pos) {
            Err(e) => Err(e),
            Ok(q) => Ok((b, q)),
        }
    }
}

pub open spec fn bound_service_merge(b: BoundService, s: Seq<u8>, pos: int, end: int) -> Result<BoundService, DecodeFault>
    decreases s.len() - pos,
{
    if pos >= end {
        if pos == end {
            Ok(b)
        } else {
            Err(DecodeFault::DelimitedLengthExceeded)
        }
    } else {
        match spec_read_key(s, pos) {
            Err(e) => Err(e),
            Ok((tag, kind, p1)) => match bound_service_field(b, tag, kind, s, p1) {
                Err(e) => Err(e),
                Ok((b2, q)) => {
                    proof {
                        lemma_reader_bounds(s, pos, kind);
                        lemma_reader_bounds(s, p1, kind);
                    }
                    bound_service_merge(b2, s, q, end)
                },
            },
        }
    }
}

/// The elements of a packed `fixed32` field between `pos` and `end`,
/// appended to `vals`.
pub open spec fn packed_fixed32(vals: Seq<u32>, s: Seq<u8>, pos: int, end: int) -> Result<Seq<u32>, DecodeFault>
    decreases s.len() - pos,
{
    if pos >= end {
        if pos == end {
            Ok(vals)
        } else {
            Err(DecodeFault::DelimitedLengthExceeded)
        }
    } else {
        match spec_read_fixed32(s, pos) {
            Err(e) => Err(e),
            Ok((v, q)) => packed_fixed32(vals.push(v), s, q, end),
        }
    }
}

/// The four-byte little-endian values that lie from `pos` on, `n` of them.
pub open spec fn le32_values(s: Seq<u8>, pos: int, n: nat) -> Seq<u32> {
    Seq::new(n, |i: int| le32_at(s, pos + 4 * i))
}

/// A packed `fixed32` field whose bytes are a whole number of values
/// decodes to every one of them, in order, after the values already read.
pub proof fn lemma_packed_fixed32(vals: Seq<u32>, s: Seq<u8>, pos: int, end: int)
    requires
        0 <= pos <= end <= s.len(),
        (end - pos) % 4 == 0,
    ensures
        packed_fixed32(vals, s, pos, end) == Ok::<Seq<u32>, DecodeFault>(
            vals + le32_values(s, pos, ((end - pos) / 4) as nat),
        ),
    decreases end - pos,
{
    let n = ((end - pos) / 4) as nat;
    if pos == end {
        assert(vals + le32_values(s, pos, 0) =~= vals);
    } else {
        let v = le32_at(s, pos);
        lemma_packed_fixed32(vals.push(v), s, pos + 4, end);
        assert(((end - (pos + 4)) / 4) as nat == n - 1);
        assert(vals.push(v) + le32_values(s, pos + 4, (n - 1) as nat) =~= vals + le32_values(s, pos, n));
    }
}

pub open spec fn bind_request_field(b: BindRequestView, tag: u32, kind: WireKind, s: Seq<u8>, pos: int) -> Result<
    (BindRequestView, int),
    DecodeFault,
> {
    if tag == 1 {
        if kind == WireKind::LengthDelimited {
            match spec_read_delimited(s, pos) {
                Err(e) => Err(e),
                Ok((start, end)) => match packed_fixed32(b.imported_service_hash, s, start, end) {
                    Err(e) => Err(e),
                    Ok(hashes) => Ok((BindRequestView { imported_service_hash: hashes, ..b }, end)),
                },
            }
        } else {
            match spec_read_fixed32_field(kind, s, pos) {
                Err(e) => Err(e),
                Ok((v, q)) => Ok(
                    (
                        BindRequestView {
                            imported_service_hash: b.imported_service_hash.push(v),
                            ..b
                        },
                        q,
                    ),
                ),
            }
        }
    } else if tag == 2 {
        match spec_read_message_region(kind, s, pos) {
            Err(e) => Err(e),
            Ok((start, end)) => match bound_service_merge(empty_bound_service(), s, start, end) {
                Err(e) => Err(e),
                Ok(svc) => Ok(
                    (BindRequestView { exported_service: b.exported_service.push(svc), ..b }, end),
                ),
            },
        }
    } else {
        match spec_skip_field(kind, s, pos) {
            Err(e) => Err(e),
            Ok(q) => Ok((b, q)),
        }
    }
}

pub proof fn lemma_bind_request_field_bounds(b: BindRequestView, tag: u32, kind: WireKind, s: Seq<u8>, pos: int)
    ensures
        bind_request_field(b, tag, kind, s, pos) matches Ok((g, q)) ==> pos < q <= s.len(),
{
    lemma_reader_bounds(s, pos, kind);
}

pub open spec fn bind_request_merge(b: BindRequestView, s: Seq<u8>, pos: int, end: int) -> Result<
    BindRequestView,
    DecodeFault,
>
    decreases s.len() - pos,
{
    if pos >= end {
        if pos == end {
            Ok(b)
        } else {
            Err(DecodeFault::DelimitedLengthExceeded)
        }
    } else {
        match spec_read_key(s, pos) {
            Err(e) => Err(e),
            Ok((tag, kind, p1)) => match bind_request_field(b, tag, kind, s, p1) {
                Err(e) => Err(e),
                Ok((b2, q)) => {
                    proof {
                        lemma_reader_bounds(s, pos, kind);
                        lemma_bind_request_field_bounds(b, tag, kind, s, p1);
                    }
                    bind_request_merge(b2, s, q, end)
                },
            },
        }
    }
}

pub open spec fn connect_request_field(r: ConnectRequestView, tag: u32, kind: WireKind, s: Seq<u8>, pos: int) -> Result<
    (ConnectRequestView, int),
    DecodeFault,
> {
    if tag == 1 {
        match spec_read_message_region(kind, s, pos) {
            Err(e) => Err(e),
            Ok((start, end)) => match process_id_merge(
                match r.client_id {
                    Some(p) => p,
                    None => empty_process_id(),
                },
                s,
                start,
                end,
            ) {
                Err(e) => Err(e),
                Ok(p) => Ok((ConnectRequestView { client_id: Some(p), ..r }, end)),
            },
        }
    } else if tag == 2 {
        match spec_read_message_region(kind, s, pos) {
            Err(e) => Err(e),
            Ok((start, end)) => match bind_request_merge(
                match r.bind_request {
                    Some(b) => b,
                    None => empty_bind_request(),
                },
                s,
                start,
                end,
            ) {
                Err(e) => Err(e),
                Ok(b) => Ok((ConnectRequestView { bind_request: Some(b), ..r }, end)),
            },
        }
    } else {
        match spec_skip_field(kind, s, pos) {
            Err(e) => Err(e),
            Ok(q) => Ok((r, q)),
        }
    }
}

pub proof fn lemma_connect_request_field_bounds(
    r: ConnectRequestView,
    tag: u32,
    kind: WireKind,
    s: Seq<u8>,
    pos: int,
)
    ensures
        connect_request_field(r, tag, kind, s, pos) matches Ok((g, q)) ==> pos < q <= s.len(),
{
    lemma_reader_bounds(s, pos, kind);
}

pub open spec fn connect_request_merge(r: ConnectRequestView, s: Seq<u8>, pos: int, end: int) -> Result<
    ConnectRequestView,
    DecodeFault,
>
    decreases s.len() - pos,
{
    if pos >= end {
        if pos == end {
            Ok(r)
        } else {
            Err(DecodeFault::DelimitedLengthExceeded)
        }
    } else {
        match spec_read_key(s, pos) {
            Err(e) => Err(e),
            Ok((tag, kind, p1)) => match connect_request_field(r, tag, kind, s, p1) {
                Err(e) => Err(e),
                Ok((r2, q)) => {
                    proof {
                        lemma_reader_bounds(s, pos, kind);
                        lemma_connect_request_field_bounds(r, tag, kind, s, p1);
                    }
                    connect_request_merge(r2, s, q, end)
                },
            },
        }
    }
}

/// The connect request that the bytes `s` decode to.
pub open spec fn spec_decode_connect_request(s: Seq<u8>) -> Result<ConnectRequestView, DecodeFault> {
    connect_request_merge(empty_connect_request(), s, 0, s.len() as int)
}

// ---------------------------------------------------------------------------
// Decoding: executable
// ---------------------------------------------------------------------------
fn read_message_region(kind: WireKind, buf: &[u8], pos: usize) -> (res: Result<(usize, usize), DecodeFault>)
    requires
        pos <= buf@.len(),
    ensures
        match res {
            Ok((a, b)) => spec_read_message_region(kind, buf@, pos as int) == Ok::<(int, int), DecodeFault>((a as int, b as int)),
            Err(e) => spec_read_message_region(kind, buf@, pos as int) == Err::<(int, int), DecodeFault>(e),
        },
{
    if kind != WireKind::LengthDelimited {
        return Err(DecodeFault::InvalidWireType);
    }
    read_delimited(buf, pos)
}

fn merge_process_id(p: &mut ProcessId, buf: &[u8], start_pos: usize, end: usize) -> (res: Result<(), DecodeFault>)
    requires
        start_pos <= buf@.len(),
        end <= buf@.len(),
    ensures
        match res {
            Ok(()) => process_id_merge(*old(p), buf@, start_pos as int, end as int) == Ok::<ProcessId, DecodeFault>(*final(p)),
            Err(e) => process_id_merge(*old(p), buf@, start_pos as int, end as int) == Err::<ProcessId, DecodeFault>(e),
        },
{
    let mut pos = start_pos;
    while pos < end
        invariant
            pos <= buf@.len(),
            end <= buf@.len(),
            process_id_merge(*old(p), buf@, start_pos as int, end as int) == process_id_merge(*p, buf@, pos as int, end as int),
        decreases buf@.len() - pos,
    {
        let (tag, kind, p1) = read_key(buf, pos)?;
        proof {
            lemma_reader_bounds(buf@, pos as int, kind);
            lemma_reader_bounds(buf@, p1 as int, kind);
        }
        if tag == 1 || tag == 2 {
            let (v, q) = read_varint_field(kind, buf, p1)?;
            if tag == 1 {
                p.label = v as u32;
            } else {
                p.epoch = v as u32;
            }
            pos = q;
        } else {
            pos = skip_field(kind, buf, p1)?;
        }
    }
    if pos == end {
        Ok(())
    } else {
        Err(DecodeFault::DelimitedLengthExceeded)
    }
}

fn merge_bound_service(b: &mut BoundService, buf: &[u8], start_pos: usize, end: usize) -> (res: Result<(), DecodeFault>)
    requires
        start_pos <= buf@.len(),
        end <= buf@.len(),
    ensures
        match res {
            Ok(()) => bound_service_merge(*old(b), buf@, start_pos as int, end as int) == Ok::<BoundService, DecodeFault>(*final(b)),
            Err(e) => bound_service_merge(*old(b), buf@, start_pos as int, end as int) == Err::<BoundService, DecodeFault>(e),
        },
{
    let mut pos = start_pos;
    while pos < end
        invariant
            pos <= buf@.len(),
            end <= buf@.len(),
            bound_service_merge(*old(b), buf@, start_pos as int, end as int) == bound_service_merge(*b, buf@, pos as int, end as int),
        decreases buf@.len() - pos,
    {
        let (tag, kind, p1) = read_key(buf, pos)?;
        proof {
            lemma_reader_bounds(buf@, pos as int, kind);
            lemma_reader_bounds(buf@, p1 as int, kind);
        }
        if tag == 1 {
            let (v, q) = read_fixed32_field(kind, buf, p1)?;
            b.hash = v;
            pos = q;
        } else if tag == 2 {
            let (v, q) = read_varint_field(kind, buf, p1)?;
            b.id = v as u32;
            pos = q;
        } else {
            pos = skip_field(kind, buf, p1)?;
        }
    }
    if pos == end {
        Ok(())
    } else {
        Err(DecodeFault::DelimitedLengthExceeded)
    }
}

fn merge_packed_fixed32(vals: &mut Vec<u32>, buf: &[u8], start_pos: usize, end: usize) -> (res: Result<(), DecodeFault>)
    requires
        start_pos <= buf@.len(),
        end <= buf@.len(),
    ensures
        match res {
            Ok(()) => packed_fixed32(old(vals)@, buf@, start_pos as int, end as int) == Ok::<Seq<u32>, DecodeFault>(final(vals)@),
            Err(e) => packed_fixed32(old(vals)@, buf@, start_pos as int, end as int) == Err::<Seq<u32>, DecodeFault>(e),
        },
{
    let mut pos = start_pos;
    while pos < end
        invariant
            pos <= buf@.len(),
            end <= buf@.len(),
            packed_fixed32(old(vals)@, buf@, start_pos as int, end as int) == packed_fixed32(vals@, buf@, pos as int, end as int),
        decreases buf@.len() - pos,
    {
        let (v, q) = read_fixed32(buf, pos)?;
        vals.push(v);
        pos = q;
    }
    if pos == end {
        Ok(())
    } else {
        Err(DecodeFault::DelimitedLengthExceeded)
    }
}

fn merge_bind_request(b: &mut BindRequest, buf: &[u8], start_pos: usize, end: usize) -> (res: Result<(), DecodeFault>)
    requires
        start_pos <= buf@.len(),
        end <= buf@.len(),
    ensures
        match res {
            Ok(()) => bind_request_merge(old(b)@, buf@, start_pos as int, end as int) == Ok::<BindRequestView, DecodeFault>(final(b)@),
            Err(e) => bind_request_merge(old(b)@, buf@, start_pos as int, end as int) == Err::<BindRequestView, DecodeFault>(e),
        },
{
    let mut pos = start_pos;
    while pos < end
        invariant
            pos <= buf@.len(),
            end <= buf@.len(),
            bind_request_merge(old(b)@, buf@, start_pos as int, end as int) == bind_request_merge(b@, buf@, pos as int, end as int),
        decreases buf@.len() - pos,
    {
        let ghost b0 = b@;
        let (tag, kind, p1) = read_key(buf, pos)?;
        proof {
            lemma_reader_bounds(buf@, pos as int, kind);
            lemma_bind_request_field_bounds(b0, tag, kind, buf@, p1 as int);
        }
        if tag == 1 {
            if kind == WireKind::LengthDelimited {
                let (start, stop) = read_delimited(buf, p1)?;
                merge_packed_fixed32(&mut b.imported_service_hash, buf, start, stop)?;
                pos = stop;
            } else {
                let (v, q) = read_fixed32_field(kind, buf, p1)?;
                b.imported_service_hash.push(v);
                pos = q;
            }
        } else if tag == 2 {
            let (start, stop) = read_message_region(kind, buf, p1)?;
            let mut svc = BoundService { hash: 0, id: 0 };
            merge_bound_service(&mut svc, buf, start, stop)?;
            b.exported_service.push(svc);
            pos = stop;
        } else {
            pos = skip_field(kind, buf, p1)?;
        }
        assert(bind_request_field(b0, tag, kind, buf@, p1 as int) == Ok::<(BindRequestView, int), DecodeFault>((b@, pos as int)));
    }
    if pos == end {
        Ok(())
    } else {
        Err(DecodeFault::DelimitedLengthExceeded)
    }
}

fn merge_connect_request(r: &mut ConnectRequest, buf: &[u8], start_pos: usize, end: usize) -> (res: Result<(), DecodeFault>)
    requires
        start_pos <= buf@.len(),
        end <= buf@.len(),
    ensures
        match res {
            Ok(()) => connect_request_merge(old(r)@, buf@, start_pos as int, end as int) == Ok::<ConnectRequestView, DecodeFault>(final(r)@),
            Err(e) => connect_request_merge(old(r)@, buf@, start_pos as int, end as int) == Err::<ConnectRequestView, DecodeFault>(e),
        },
{
    let mut pos = start_pos;
    while pos < end
        invariant
            pos <= buf@.len(),
            end <= buf@.len(),
            connect_request_merge(old(r)@, buf@, start_pos as int, end as int) == connect_request_merge(r@, buf@, pos as int, end as int),
        decreases buf@.len() - pos,
    {
        let ghost r0 = r@;
        let (tag, kind, p1) = read_key(buf, pos)?;
        proof {
            lemma_reader_bounds(buf@, pos as int, kind);
            lemma_connect_request_field_bounds(r0, tag, kind, buf@, p1 as int);
        }
        if tag == 1 {
            let (start, stop) = read_message_region(kind, buf, p1)?;
            let mut p = match r.client_id {
                Some(p) => p,
                None => ProcessId { label: 0, epoch: 0 },
            };
            merge_process_id(&mut p, buf, start, stop)?;
            r.client_id = Some(p);
            pos = stop;
        } else if tag == 2 {
            let (start, stop) = read_message_region(kind, buf, p1)?;
            let mut b = match r.bind_request.take() {
                Some(b) => b,
                None => BindRequest { imported_service_hash: Vec::new(), exported_service: Vec::new() },
            };
            proof {
                assert(b@ == (match r0.bind_request {
                    Some(x) => x,
                    None => empty_bind_request(),
                }));
            }
            merge_bind_request(&mut b, buf, start, stop)?;
            r.bind_request = Some(b);
            pos = stop;
        } else {
            pos = skip_field(kind, buf, p1)?;
        }
        assert(connect_request_field(r0, tag, kind, buf@, p1 as int) == Ok::<(ConnectRequestView, int), DecodeFault>((r@, pos as int)));
    }
    if pos == end {
        Ok(())
    } else {
        Err(DecodeFault::DelimitedLengthExceeded)
    }
}

/// Decodes a connect request from a whole buffer (`Message::decode`).
pub fn decode_connect_request(buf: &[u8]) -> (res: Result<ConnectRequest, DecodeFault>)
    ensures
        match res {
            Ok(r) => spec_decode_connect_request(buf@) == Ok::<ConnectRequestView, DecodeFault>(r@),
            Err(e) => spec_decode_connect_request(buf@) == Err::<ConnectRequestView, DecodeFault>(e),
        },
{
    let mut r = ConnectRequest { client_id: None, bind_request: None };
    merge_connect_request(&mut r, buf, 0, buf.len())?;
    Ok(r)
}

// ---------------------------------------------------------------------------
// Encoding
// ---------------------------------------------------------------------------
/// A `ConnectResponse` as values.
pub struct ConnectResponseView {
    pub server_id: ProcessId,
    pub client_id: Option<ProcessId>,
    pub bind_result: Option<u32>,
    pub bind_response: Option<Seq<u32>>,
    pub server_time: Option<u64>,
}

impl View for ConnectResponse {
    type V = ConnectResponseView;

    open spec fn view(&self) -> ConnectResponseView {
        ConnectResponseView {
            server_id: self.server_id,
            client_id: self.client_id,
            bind_result: self.bind_result,
            bind_response: match self.bind_response {
                Some(b) => Some(b.imported_service_id@),
                None => None,
            },
            server_time: self.server_time,
        }
    }
}

pub open spec fn process_id_bytes(p: ProcessId) -> Seq<u8> {
    varint_field_bytes(1, p.label as nat) + varint_field_bytes(2, p.epoch as nat)
}

/// The varints of `vals`, one after the other.
pub open spec fn packed_varint_bytes(vals: Seq<u32>) -> Seq<u8>
    decreases vals.len(),
{
    if vals.len() == 0 {
        Seq::empty()
    } else {
        packed_varint_bytes(vals.drop_last()) + varint_bytes(vals.last() as nat)
    }
}

/// A `BindResponse`: the ids as one packed field, absent when there are none.
pub open spec fn bind_response_bytes(ids: Seq<u32>) -> Seq<u8> {
    if ids.len() == 0 {
        Seq::empty()
    } else {
        delimited_field_bytes(1, packed_varint_bytes(ids))
    }
}

pub open spec fn opt_message_bytes(tag: nat, payload: Option<Seq<u8>>) -> Seq<u8> {
    match payload {
        Some(p) => delimited_field_bytes(tag, p),
        None => Seq::empty(),
    }
}

pub open spec fn opt_varint_bytes(tag: nat, v: Option<u64>) -> Seq<u8> {
    match v {
        Some(x) => varint_field_bytes(tag, x as nat),
        None => Seq::empty(),
    }
}

/// The protobuf encoding of a connect response, fields in tag order.
pub open spec fn connect_response_bytes(r: ConnectResponseView) -> Seq<u8> {
    delimited_field_bytes(1, process_id_bytes(r.server_id)) + opt_message_bytes(
        2,
        match r.client_id {
            Some(p) => Some(process_id_bytes(p)),
            None => None,
        },
    ) + opt_varint_bytes(
        3,
        match r.bind_result {
            Some(b) => Some(b as u64),
            None => None,
        },
    ) + opt_message_bytes(
        4,
        match r.bind_response {
            Some(ids) => Some(bind_response_bytes(ids)),
            None => None,
        },
    ) + opt_varint_bytes(6, r.server_time)
}

pub fn encode_process_id(p: &ProcessId, buf: &mut Vec<u8>)
    ensures
        final(buf)@ == old(buf)@ + process_id_bytes(*p),
{
    put_varint_field(1, p.label as u64, buf);
    put_varint_field(2, p.epoch as u64, buf);
    assert(buf@ =~= old(buf)@ + process_id_bytes(*p));
}

/// Appends a `BindResponse` (`uint32::encode_packed`).
pub fn encode_bind_response(b: &BindResponse, buf: &mut Vec<u8>)
    ensures
        final(buf)@ == old(buf)@ + bind_response_bytes(b.imported_service_id@),
{
    let ids = &b.imported_service_id;
    if ids.len() == 0 {
        assert(buf@ =~= old(buf)@ + bind_response_bytes(ids@));
        return;
    }
    let mut packed: Vec<u8> = Vec::new();
    let mut i: usize = 0;
    while i < ids.len()
        invariant
            i <= ids@.len(),
            packed@ == packed_varint_bytes(ids@.take(i as int)),
        decreases ids@.len() - i,
    {
        assert(ids@.take(i as int + 1).drop_last() == ids@.take(i as int));
        pb_encode_varint(ids[i] as u64, &mut packed);
        i = i + 1;
    }
    assert(ids@.take(i as int) == ids@);
    put_delimited_field(1, &mut packed, buf);
}

fn put_opt_process_id(tag: u32, p: Option<ProcessId>, buf: &mut Vec<u8>)
    requires
        1 <= tag <= 2,
    ensures
        final(buf)@ == old(buf)@ + opt_message_bytes(
            tag as nat,
            match p {
                Some(x) => Some(process_id_bytes(x)),
                None => None,
            },
        ),
{
    if let Some(x) = p {
        let mut payload: Vec<u8> = Vec::new();
        encode_process_id(&x, &mut payload);
        assert(payload@ =~= process_id_bytes(x));
        put_delimited_field(tag, &mut payload, buf);
    } else {
        assert(buf@ =~= old(buf)@ + Seq::<u8>::empty());
    }
}

fn put_opt_varint(tag: u32, v: Option<u64>, buf: &mut Vec<u8>)
    requires
        1 <= tag <= 6,
    ensures
        final(buf)@ == old(buf)@ + opt_varint_bytes(tag as nat, v),
{
    if let Some(x) = v {
        put_varint_field(tag, x, buf);
    } else {
        assert(buf@ =~= old(buf)@ + Seq::<u8>::empty());
    }
}

/// Appends the connect response's protobuf encoding (`Message::encode`).
pub fn encode_connect_response(r: &ConnectResponse, buf: &mut Vec<u8>)
    ensures
        final(buf)@ == old(buf)@ + connect_response_bytes(r@),
{
    let ghost start = buf@;
    let mut server: Vec<u8> = Vec::new();
    encode_process_id(&r.server_id, &mut server);
    assert(server@ =~= process_id_bytes(r.server_id));
    put_delimited_field(1, &mut server, buf);
    let ghost a = buf@;
    put_opt_process_id(2, r.client_id, buf);
    let ghost b = buf@;
    let bind_result = match r.bind_result {
        Some(x) => Some(x as u64),
        None => None,
    };
    put_opt_varint(3, bind_result, buf);
    let ghost c = buf@;
    match &r.bind_response {
        Some(br) => {
            let mut payload: Vec<u8> = Vec::new();
            encode_bind_response(br, &mut payload);
            assert(payload@ =~= bind_response_bytes(br.imported_service_id@));
            put_delimited_field(4, &mut payload, buf);
        },
        None => {
            assert(buf@ =~= c + Seq::<u8>::empty());
        },
    }
    let ghost d = buf@;
    put_opt_varint(6, r.server_time, buf);
    assert(buf@ =~= start + connect_response_bytes(r@));
}

/// The server time is the last field of a connect response: the bytes
/// are those of the response without it, then the key of field 6 (varint)
/// and the time's varint, and reading that key and varint back gives field
/// 6 and the time, for every 64-bit time.
pub proof fn lemma_connect_response_server_time(r: ConnectResponseView, t: u64)
    requires
        r.server_time == Some(t),
    ensures
        connect_response_bytes(r) == connect_response_bytes(ConnectResponseView { server_time: None, ..r })
            + seq![0x30u8] + varint_bytes(t as nat),
        ({
            let s = connect_response_bytes(r);
            let p = s.len() - varint_bytes(t as nat).len();
            &&& spec_read_key(s, p - 1) == Ok::<(u32, WireKind, int), DecodeFault>((6u32, WireKind::Varint, p))
            &&& varint_at(s, p) == Some((t, s.len() as int))
        }),
{
    let r0 = ConnectResponseView { server_time: None, ..r };
    assert(varint_bytes(48) == seq![48u8]);
    assert(connect_response_bytes(r) =~= connect_response_bytes(r0) + seq![0x30u8] + varint_bytes(t as nat));
    let s = connect_response_bytes(r);
    let e = varint_bytes(t as nat);
    let p = s.len() - e.len();
    let q = p - 1;
    assert forall|j: int| 0 <= j < e.len() implies #[trigger] s[p + j] == e[j] by {}
    lemma_varint_roundtrip(t, s, p);
    assert forall|j: int| 0 <= j < varint_bytes(48u64 as nat).len() implies #[trigger] s[q + j] == varint_bytes(
        48u64 as nat,
    )[j] by {
        assert(s[q] == 0x30u8);
    }
    lemma_varint_roundtrip(48u64, s, q);
}

// ---------------------------------------------------------------------------
// Reading back what an encoder writes
// ---------------------------------------------------------------------------
/// The bytes `b` lie in `s` from `pos` on.
pub open spec fn bytes_at(s: Seq<u8>, pos: int, b: Seq<u8>) -> bool {
    0 <= pos && pos + b.len() <= s.len() && forall|j: int| 0 <= j < b.len() ==> #[trigger] s[pos + j] == b[j]
}

/// A `fixed32` value's four bytes, low byte first.
pub open spec fn le32_bytes(v: u32) -> Seq<u8> {
    seq![(v % 256) as u8, ((v / 256) % 256) as u8, ((v / 65536) % 256) as u8, (v / 16777216) as u8]
}

/// The payload of a packed `fixed32` field holding `vs`.
pub open spec fn packed_fixed32_bytes(vs: Seq<u32>) -> Seq<u8>
    decreases vs.len(),
{
    if vs.len() == 0 {
        Seq::empty()
    } else {
        packed_fixed32_bytes(vs.drop_last()) + le32_bytes(vs.last())
    }
}

/// A connect request with only a bind request asking, packed, for the
/// services with hashes `hs`.
pub open spec fn bind_only_request_bytes(hs: Seq<u32>) -> Seq<u8> {
    delimited_field_bytes(2, delimited_field_bytes(1, packed_fixed32_bytes(hs)))
}

proof fn lemma_le32_bytes(v: u32)
    ensures
        le32_at(le32_bytes(v), 0) == v,
{
    let b = le32_bytes(v);
    assert(b[0] as nat + 256 * (b[1] as nat) + 65536 * (b[2] as nat) + 16777216 * (b[3] as nat) == v) by (nonlinear_arith)
        requires
            b[0] == (v % 256) as u8,
            b[1] == ((v / 256) % 256) as u8,
            b[2] == ((v / 65536) % 256) as u8,
            b[3] == (v / 16777216) as u8,
            v <= u32::MAX,
    ;
}

proof fn lemma_packed_fixed32_bytes(vs: Seq<u32>)
    ensures
        packed_fixed32_bytes(vs).len() == 4 * vs.len(),
        forall|i: int| 0 <= i < vs.len() ==> bytes_at(packed_fixed32_bytes(vs), 4 * i, le32_bytes(#[trigger] vs[i])),
    decreases vs.len(),
{
    if vs.len() > 0 {
        let init = vs.drop_last();
        lemma_packed_fixed32_bytes(init);
        let p = packed_fixed32_bytes(vs);
        assert forall|i: int| 0 <= i < vs.len() implies bytes_at(p, 4 * i, le32_bytes(#[trigger] vs[i])) by {
            if i < init.len() {
                assert(vs[i] == init[i]);
                assert(bytes_at(packed_fixed32_bytes(init), 4 * i, le32_bytes(init[i])));
                assert forall|j: int| 0 <= j < 4 implies #[trigger] p[4 * i + j] == le32_bytes(vs[i])[j] by {
                    assert(p[4 * i + j] == packed_fixed32_bytes(init)[4 * i + j]);
                }
            } else {
                assert forall|j: int| 0 <= j < 4 implies #[trigger] p[4 * i + j] == le32_bytes(vs[i])[j] by {
                    assert(p[4 * i + j] == le32_bytes(vs.last())[j]);
                }
            }
        }
    }
}

/// A length-delimited field with a one-byte key lying in `s` at `pos`
/// reads back as its tag, and as the region of its payload.
proof fn lemma_read_delimited_field(s: Seq<u8>, pos: int, tag: u32, payload: Seq<u8>)
    requires
        1 <= tag < 16,
        payload.len() <= u64::MAX,
        bytes_at(s, pos, delimited_field_bytes(tag as nat, payload)),
    ensures
        ({
            let q = pos + 1 + varint_bytes(payload.len()).len();
            &&& spec_read_key(s, pos) == Ok::<(u32, WireKind, int), DecodeFault>((tag, WireKind::LengthDelimited, pos + 1))
            &&& spec_read_delimited(s, pos + 1) == Ok::<(int, int), DecodeFault>((q, q + payload.len()))
            &&& q + payload.len() == pos + delimited_field_bytes(tag as nat, payload).len()
            &&& bytes_at(s, q, payload)
        }),
{
    let key = (tag * 8 + 2) as u64;
    let kb = varint_bytes(key as nat);
    assert(kb == seq![key as u8]);
    let f = delimited_field_bytes(tag as nat, payload);
    let lb = varint_bytes(payload.len());
    assert(f == kb + lb + payload);
    assert forall|j: int| 0 <= j < kb.len() implies #[trigger] s[pos + j] == kb[j] by {
        assert(s[pos + j] == f[j]);
    }
    lemma_varint_roundtrip(key, s, pos);
    let len = payload.len() as u64;
    lemma_varint_u64_len(len);
    assert forall|j: int| 0 <= j < lb.len() implies #[trigger] s[pos + 1 + j] == lb[j] by {
        assert(s[pos + (1 + j)] == f[1 + j]);
    }
    lemma_varint_roundtrip(len, s, pos + 1);
    let q: int = pos + 1 + lb.len();
    assert forall|j: int| 0 <= j < payload.len() implies #[trigger] s[q + j] == payload[j] by {
        assert(s[pos + (1 + lb.len() + j)] == f[1 + lb.len() + j]);
    }
}

/// Decoding undoes encoding for a bind request's packed hashes: a connect
/// request that only asks for services by hash, packed, decodes to a bind
/// request holding every one of those hashes, in order.
#[verifier::rlimit(40)]
pub proof fn lemma_decode_bind_only_request(hs: Seq<u32>)
    requires
        hs.len() < 0x1_0000_0000,
    ensures
        spec_decode_connect_request(bind_only_request_bytes(hs)) == Ok::<ConnectRequestView, DecodeFault>(
            ConnectRequestView {
                client_id: None,
                bind_request: Some(BindRequestView { imported_service_hash: hs, exported_service: Seq::empty() }),
            },
        ),
{
    let p = packed_fixed32_bytes(hs);
    lemma_packed_fixed32_bytes(hs);
    let inner = delimited_field_bytes(1, p);
    let s = bind_only_request_bytes(hs);
    let n = s.len() as int;
    lemma_varint_u64_len(p.len() as u64);
    assert(bytes_at(s, 0, s));
    lemma_read_delimited_field(s, 0, 2, inner);
    let q1: int = 1int + varint_bytes(inner.len()).len();
    assert(bytes_at(s, q1, inner));
    lemma_read_delimited_field(s, q1, 1, p);
    let q2: int = q1 + 1 + varint_bytes(p.len()).len();
    assert(bytes_at(s, q2, p));
    // The packed payload holds the hashes.
    lemma_packed_fixed32(Seq::empty(), s, q2, n);
    assert(((n - q2) / 4) as nat == hs.len());
    assert forall|i: int| 0 <= i < hs.len() implies #[trigger] le32_values(s, q2, hs.len())[i] == hs[i] by {
        assert(bytes_at(p, 4 * i, le32_bytes(hs[i])));
        lemma_le32_bytes(hs[i]);
        let b = le32_bytes(hs[i]);
        assert(s[q2 + 4 * i] == p[4 * i + 0] && p[4 * i + 0] == b[0]);
        assert(s[q2 + 4 * i + 1] == p[4 * i + 1] && p[4 * i + 1] == b[1]);
        assert(s[q2 + 4 * i + 2] == p[4 * i + 2] && p[4 * i + 2] == b[2]);
        assert(s[q2 + 4 * i + 3] == p[4 * i + 3] && p[4 * i + 3] == b[3]);
    }
    assert(Seq::<u32>::empty() + le32_values(s, q2, hs.len()) =~= hs);
    let b2 = BindRequestView { imported_service_hash: hs, exported_service: Seq::empty() };
    assert(bind_request_field(empty_bind_request(), 1, WireKind::LengthDelimited, s, q1 + 1) == Ok::<
        (BindRequestView, int),
        DecodeFault,
    >((b2, n)));
    assert(bind_request_merge(b2, s, n, n) == Ok::<BindRequestView, DecodeFault>(b2));
    assert(bind_request_merge(empty_bind_request(), s, q1, n) == Ok::<BindRequestView, DecodeFault>(b2));
    let r2 = ConnectRequestView { client_id: None, bind_request: Some(b2) };
    assert(connect_request_field(empty_connect_request(), 2, WireKind::LengthDelimited, s, 1) == Ok::<
        (ConnectRequestView, int),
        DecodeFault,
    >((r2, n)));
    assert(connect_request_merge(r2, s, n, n) == Ok::<ConnectRequestView, DecodeFault>(r2));
}

} // verus!

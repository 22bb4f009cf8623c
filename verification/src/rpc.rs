//! Service name hashing and the RPC request/response envelopes.
use vstd::prelude::*;
use vstd::string::StringSliceAdditionalSpecFns;
use crate::wire::DecodeFault;

verus! {

/// FNV-1a offset basis (32 bit).
pub const FNV1A_INIT: u32 = 0x811c9dc5;

/// FNV-1a prime (32 bit).
pub const FNV1A_PRIME: u32 = 0x01000193;

/// One FNV-1a round: mix a byte into the running hash.
pub open spec fn fnv1a_step(hash: u32, byte: u8) -> u32 {
    ((((hash ^ (byte as u32)) as nat) * (FNV1A_PRIME as nat)) % 0x1_0000_0000) as u32
}

/// FNV-1a over a byte sequence, folded from the left.
pub open spec fn fnv1a(bytes: Seq<u8>) -> u32
    decreases bytes.len(),
{
    if bytes.len() == 0 {
        FNV1A_INIT
    } else {
        fnv1a_step(fnv1a(bytes.drop_last()), bytes.last())
    }
}

/// Hashes a service name the way the Battle.net protocol identifies services:
/// 32-bit FNV-1a over the UTF-8 bytes of the name.
pub fn hash_service_name(name: &str) -> (hash: u32)
    ensures
        hash == fnv1a(name.spec_bytes()),
{
    let bytes = name.as_bytes();
    let mut hash: u32 = FNV1A_INIT;
    let mut i: usize = 0;
    while i < bytes.len()
        invariant
            i <= bytes@.len(),
            bytes@ == name.spec_bytes(),
            hash == fnv1a(bytes@.take(i as int)),
        decreases bytes@.len() - i,
    {
        assert(bytes@.take(i as int + 1).drop_last() == bytes@.take(i as int));
        hash = hash ^ (bytes[i] as u32);
        hash = hash.wrapping_mul(FNV1A_PRIME);
        i = i + 1;
    }
    assert(bytes@.take(i as int) == bytes@);
    hash
}

/// Errors of the RPC layer.
#[derive(Debug, Clone, Copy)]
pub enum RpcError {
    /// Not enough information is provided to execute the request (no method
    /// id), for the named service.
    UnknownRequest(&'static str),
    /// The request is malformed: the method id is unknown to, or not
    /// accepted by, the named service.
    InvalidRequest(u32, &'static str),
    /// The client sent an ad-hoc response carrying this token.
    InvalidResponse(u32),
    /// A protobuf payload could not be decoded.
    ProtoDecode(DecodeFault),
    /// The clock reads a time that nanoseconds since 1970 cannot hold in
    /// 64 bits (before 1677 or after 2262).
    ClockOutOfRange,
}

/// How many method slots a service table has.
pub const MAX_METHODS: usize = 10;

/// A packet travelling as a request.
#[derive(Debug)]
pub struct Request<Packet>(Packet);

impl<Packet> Request<Packet> {
    pub closed spec fn inner(self) -> Packet {
        self.0
    }

    pub fn new(data: Packet) -> (r: Self)
        ensures
            r.inner() == data,
    {
        Request(data)
    }

    pub fn into_inner(self) -> (p: Packet)
        ensures
            p == self.inner(),
    {
        self.0
    }

    pub fn as_ref(&self) -> (r: Request<&Packet>)
        ensures
            *r.inner() == self.inner(),
    {
        Request::new(&self.0)
    }
}

/// A packet travelling as a response.
#[derive(Debug)]
pub struct Response<Packet>(Packet);

impl<Packet> Response<Packet> {
    pub closed spec fn inner(self) -> Packet {
        self.0
    }

    pub fn new(data: Packet) -> (r: Self)
        ensures
            r.inner() == data,
    {
        Response(data)
    }

    pub fn into_inner(self) -> (p: Packet)
        ensures
            p == self.inner(),
    {
        self.0
    }

    pub fn as_ref(&self) -> (r: Response<&Packet>)
        ensures
            *r.inner() == self.inner(),
    {
        Response::new(&self.0)
    }
}

/// A packet to be routed on to another party.
#[derive(Debug)]
pub struct Route<Packet>(Packet);

impl<Packet> Route<Packet> {
    pub closed spec fn inner(self) -> Packet {
        self.0
    }

    pub fn new(data: Packet) -> (r: Self)
        ensures
            r.inner() == data,
    {
        Route(data)
    }

    pub fn into_inner(self) -> (p: Packet)
        ensures
            p == self.inner(),
    {
        self.0
    }

    pub fn as_ref(&self) -> (r: Route<&Packet>)
        ensures
            *r.inner() == self.inner(),
    {
        Route::new(&self.0)
    }

    /// The routed packet, now handled as a request.
    pub fn into_request(self) -> (r: Request<Packet>)
        ensures
            r.inner() == self.inner(),
    {
        Request::new(self.0)
    }
}

/// What a service call produced.
#[derive(Debug)]
pub enum RPCResult<Packet> {
    Route(Route<Packet>),
    Response(Response<Packet>),
    Empty,
}

impl<Packet> From<Response<Packet>> for RPCResult<Packet> {
    fn from(x: Response<Packet>) -> (r: Self) {
        RPCResult::Response(x)
    }
}

impl<Packet> vstd::std_specs::convert::FromSpecImpl<Response<Packet>> for RPCResult<Packet> {
    open spec fn obeys_from_spec() -> bool {
        true
    }

    open spec fn from_spec(x: Response<Packet>) -> Self {
        RPCResult::Response(x)
    }
}

impl<Packet> From<Route<Packet>> for RPCResult<Packet> {
    fn from(x: Route<Packet>) -> (r: Self) {
        RPCResult::Route(x)
    }
}

impl<Packet> vstd::std_specs::convert::FromSpecImpl<Route<Packet>> for RPCResult<Packet> {
    open spec fn obeys_from_spec() -> bool {
        true
    }

    open spec fn from_spec(x: Route<Packet>) -> Self {
        RPCResult::Route(x)
    }
}

/// A service's method identifiers.
pub trait MethodKind: Copy {
    spec fn spec_id(self) -> u32;

    /// The method's numeric id on the wire.
    fn id(&self) -> (r: u32)
        ensures
            r == self.spec_id(),
    ;
}

/// The first method of `methods` whose id is `method_id`.
pub open spec fn method_in_table<M: MethodKind>(methods: Seq<Option<(&'static str, M)>>, method_id: u32) -> Option<M>
    decreases methods.len(),
{
    if methods.len() == 0 {
        None
    } else {
        match methods[0] {
            Some((_, m)) => if m.spec_id() == method_id {
                Some(m)
            } else {
                method_in_table(methods.drop_first(), method_id)
            },
            None => method_in_table(methods.drop_first(), method_id),
        }
    }
}

/// The lookup of one table entry: its method when it has the id, else
/// what the rest of the table gives.
pub open spec fn entry_or<M: MethodKind>(entry: Option<(&'static str, M)>, method_id: u32, rest: Option<M>) -> Option<M> {
    match entry {
        Some((_, m)) => if m.spec_id() == method_id {
            Some(m)
        } else {
            rest
        },
        None => rest,
    }
}

/// Looking a method up in a full table goes through its entries in order.
pub proof fn lemma_table_lookup<M: MethodKind>(t: Seq<Option<(&'static str, M)>>, method_id: u32)
    requires
        t.len() == MAX_METHODS,
    ensures
        method_in_table(t, method_id) == entry_or(t[0], method_id, entry_or(t[1], method_id, entry_or(
            t[2],
            method_id,
            entry_or(t[3], method_id, entry_or(t[4], method_id, entry_or(t[5], method_id, entry_or(
                t[6],
                method_id,
                entry_or(t[7], method_id, entry_or(t[8], method_id, entry_or(t[9], method_id, None))),
            )))),
        ))),
{
    reveal_with_fuel(method_in_table, 11);
    assert(t.drop_first() =~= t.subrange(1, 10));
    assert(t.subrange(1, 10).drop_first() =~= t.subrange(2, 10));
    assert(t.subrange(2, 10).drop_first() =~= t.subrange(3, 10));
    assert(t.subrange(3, 10).drop_first() =~= t.subrange(4, 10));
    assert(t.subrange(4, 10).drop_first() =~= t.subrange(5, 10));
    assert(t.subrange(5, 10).drop_first() =~= t.subrange(6, 10));
    assert(t.subrange(6, 10).drop_first() =~= t.subrange(7, 10));
    assert(t.subrange(7, 10).drop_first() =~= t.subrange(8, 10));
    assert(t.subrange(8, 10).drop_first() =~= t.subrange(9, 10));
    assert(t.subrange(9, 10).drop_first() =~= Seq::<Option<(&'static str, M)>>::empty());
}

/// Looks a method up by id in a service's method table.
pub fn find_method<M: MethodKind>(methods: &[Option<(&'static str, M)>; MAX_METHODS], method_id: u32) -> (res: Option<M>)
    ensures
        res == method_in_table(methods@, method_id),
{
    let mut i: usize = 0;
    assert(methods@.skip(0) == methods@);
    while i < MAX_METHODS
        invariant
            i <= MAX_METHODS,
            methods@.len() == MAX_METHODS,
            method_in_table(methods@, method_id) == method_in_table(methods@.skip(i as int), method_id),
        decreases MAX_METHODS - i,
    {
        assert(methods@.skip(i as int).drop_first() == methods@.skip(i as int + 1));
        assert(methods@.skip(i as int)[0] == methods@[i as int]);
        if let Some((_, m)) = methods[i] {
            if m.id() == method_id {
                return Some(m);
            }
        }
        i = i + 1;
    }
    None
}

/// A service of the Battle.net RPC protocol: an id, a full name, the name's
/// hash and a table of methods.
pub trait RPCService {
    type Method: MethodKind;

    spec fn spec_id() -> u32;

    spec fn spec_name() -> &'static str;

    spec fn spec_methods() -> Seq<Option<(&'static str, Self::Method)>>;

    fn get_id() -> (id: u32)
        ensures
            id == Self::spec_id(),
    ;

    fn get_name() -> (name: &'static str)
        ensures
            name == Self::spec_name(),
    ;

    /// The FNV-1a hash of the service's name.
    fn get_hash() -> (hash: u32)
        ensures
            hash == fnv1a(Self::spec_name().spec_bytes()),
    ;

    fn get_methods() -> (methods: [Option<(&'static str, Self::Method)>; MAX_METHODS])
        ensures
            methods@ == Self::spec_methods(),
    ;
}

/// A service that answers requests: it checks which of its methods a
/// request calls.
pub trait RPCResponder: RPCService + Sized {
    fn validate_request(packet: &Request<crate::frame::BNetPacket>) -> (res: Result<Self::Method, RpcError>)
        ensures
            res == spec_validate_request::<Self>(packet.inner().header.method_id),
    ;
}

/// The method a request names, as a service validates it: a request
/// without a method id is unknown, one whose id is not in the service's
/// table is invalid.
pub open spec fn spec_validate_request<S: RPCService>(method_id: Option<u32>) -> Result<S::Method, RpcError> {
    match method_id {
        None => Err(RpcError::UnknownRequest(S::spec_name())),
        Some(id) => match method_in_table(S::spec_methods(), id) {
            Some(m) => Ok(m),
            None => Err(RpcError::InvalidRequest(id, S::spec_name())),
        },
    }
}

/// Validates the method of a request addressed to service `S`.
pub fn validate_method<S: RPCService>(method_id: Option<u32>) -> (res: Result<S::Method, RpcError>)
    ensures
        res == spec_validate_request::<S>(method_id),
{
    let method = match method_id {
        Some(m) => m,
        None => return Err(RpcError::UnknownRequest(S::get_name())),
    };
    let known_methods = S::get_methods();
    match find_method(&known_methods, method) {
        Some(found) => Ok(found),
        None => Err(RpcError::InvalidRequest(method, S::get_name())),
    }
}

} // verus!

//! The `bnet.protocol.Header` message that precedes every packet body, and
//! its protobuf encoding.
//!
//! Fields (tag, type): 1 `service_id` uint32, 2 `method_id` optional
//! uint32, 3 `token` uint32, 4 `object_id` optional uint64, 5 `size`
//! optional uint32 (the body length), 6 `status` optional uint32.
use crate::wire::{
    put_varint_field, varint_field_bytes, lemma_reader_bounds, lemma_varint_roundtrip, lemma_varint_u64_len, MAX_TAG, pb_encode_key, pb_encode_varint, read_key, read_varint_field, skip_field,
    spec_read_key, spec_read_varint_field, spec_skip_field, varint_bytes, DecodeFault, WireKind,
};
use vstd::prelude::*;

verus! {

#[derive(Debug, Clone, Copy, PartialEq, Eq, Structural)]
pub struct Header {
    pub service_id: u32,
    pub method_id: Option<u32>,
    pub token: u32,
    pub object_id: Option<u64>,
    pub size: Option<u32>,
    pub status: Option<u32>,
}

/// The header every decode starts from: zero ids, no optional field set.
pub open spec fn empty_header() -> Header {
    Header {
        service_id: 0,
        method_id: None,
        token: 0,
        object_id: None,
        size: None,
        status: None,
    }
}

impl Default for Header {
    fn default() -> (h: Header)
        ensures
            h == empty_header(),
    {
        Header { service_id: 0, method_id: None, token: 0, object_id: None, size: None, status: None }
    }
}

// ---------------------------------------------------------------------------
// Decoding
// ---------------------------------------------------------------------------
/// The header with the value of varint field `tag` (1 to 6) set to `v`, as
/// decoding stores it: 32-bit fields keep the low 32 bits.
pub open spec fn header_set(h: Header, tag: u32, v: u64) -> Header {
    if tag == 1 {
        Header { service_id: v as u32, ..h }
    } else if tag == 2 {
        Header { method_id: Some(v as u32), ..h }
    } else if tag == 3 {
        Header { token: v as u32, ..h }
    } else if tag == 4 {
        Header { object_id: Some(v), ..h }
    } else if tag == 5 {
        Header { size: Some(v as u32), ..h }
    } else {
        Header { status: Some(v as u32), ..h }
    }
}

pub open spec fn is_header_tag(tag: u32) -> bool {
    1 <= tag <= 6
}

/// Merges one field (tag and wire type already read, value at `pos`) into
/// `h`; unknown tags are skipped.
pub open spec fn header_field(h: Header, tag: u32, kind: WireKind, s: Seq<u8>, pos: int) -> Result<
    (Header, int),
    DecodeFault,
> {
    if is_header_tag(tag) {
        match spec_read_varint_field(kind, s, pos) {
            Err(e) => Err(e),
            Ok((v, q)) => Ok((header_set(h, tag, v), q)),
        }
    } else {
        match spec_skip_field(kind, s, pos) {
            Err(e) => Err(e),
            Ok(q) => Ok((h, q)),
        }
    }
}

pub proof fn lemma_header_field_bounds(h: Header, tag: u32, kind: WireKind, s: Seq<u8>, pos: int)
    ensures
        header_field(h, tag, kind, s, pos) matches Ok((g, q)) ==> pos < q <= s.len(),
{
    lemma_reader_bounds(s, pos, kind);
}

/// Merges the fields found between `pos` and `end` into `h`, the way the
/// protobuf runtime merges a message: field after field until the region
/// is used up, failing if the last field ran past `end`.
pub open spec fn header_merge(h: Header, s: Seq<u8>, pos: int, end: int) -> Result<Header, DecodeFault>
    decreases s.len() - pos,
{
    if pos >= end {
        if pos == end {
            Ok(h)
        } else {
            Err(DecodeFault::DelimitedLengthExceeded)
        }
    } else {
        match spec_read_key(s, pos) {
            Err(e) => Err(e),
            Ok((tag, kind, p1)) => match header_field(h, tag, kind, s, p1) {
                Err(e) => Err(e),
                Ok((h2, p2)) => {
                    proof {
                        lemma_reader_bounds(s, pos, kind);
                        lemma_header_field_bounds(h, tag, kind, s, p1);
                    }
                    header_merge(h2, s, p2, end)
                },
            },
        }
    }
}

/// The header that the bytes `s` decode to.
pub open spec fn spec_decode_header(s: Seq<u8>) -> Result<Header, DecodeFault> {
    header_merge(empty_header(), s, 0, s.len() as int)
}

fn merge_header_field(h: &mut Header, tag: u32, kind: WireKind, buf: &[u8], pos: usize) -> (res: Result<
    usize,
    DecodeFault,
>)
    requires
        pos <= buf@.len(),
    ensures
        match res {
            Ok(q) => header_field(*old(h), tag, kind, buf@, pos as int) == Ok::<(Header, int), DecodeFault>((*final(h), q as int)),
            Err(e) => header_field(*old(h), tag, kind, buf@, pos as int) == Err::<(Header, int), DecodeFault>(e),
        },
{
    if 1 <= tag && tag <= 6 {
        let (v, q) = read_varint_field(kind, buf, pos)?;
        if tag == 1 {
            h.service_id = v as u32;
        } else if tag == 2 {
            h.method_id = Some(v as u32);
        } else if tag == 3 {
            h.token = v as u32;
        } else if tag == 4 {
            h.object_id = Some(v);
        } else if tag == 5 {
            h.size = Some(v as u32);
        } else {
            h.status = Some(v as u32);
        }
        Ok(q)
    } else {
        skip_field(kind, buf, pos)
    }
}

/// Decodes a header from a whole buffer (`Message::decode`).
pub fn decode_header(buf: &[u8]) -> (res: Result<Header, DecodeFault>)
    ensures
        res == spec_decode_header(buf@),
{
    let mut h = Header::default();
    let mut pos: usize = 0;
    let end = buf.len();
    while pos < end
        invariant
            pos <= end,
            end == buf@.len(),
            header_merge(empty_header(), buf@, 0, end as int) == header_merge(h, buf@, pos as int, end as int),
        decreases end - pos,
    {
        let ghost h0 = h;
        let (tag, kind, p1) = read_key(buf, pos)?;
        proof {
            lemma_reader_bounds(buf@, pos as int, kind);
        }
        let p2 = merge_header_field(&mut h, tag, kind, buf, p1)?;
        proof {
            lemma_header_field_bounds(h0, tag, kind, buf@, p1 as int);
        }
        pos = p2;
    }
    Ok(h)
}

// ---------------------------------------------------------------------------
// Encoding
// ---------------------------------------------------------------------------
pub open spec fn opt_u32_field_bytes(tag: nat, v: Option<u32>) -> Seq<u8> {
    match v {
        Some(x) => varint_field_bytes(tag, x as nat),
        None => Seq::empty(),
    }
}

pub open spec fn opt_u64_field_bytes(tag: nat, v: Option<u64>) -> Seq<u8> {
    match v {
        Some(x) => varint_field_bytes(tag, x as nat),
        None => Seq::empty(),
    }
}

/// The protobuf encoding of a header: its fields in tag order, optional
/// fields only when set.
pub open spec fn header_bytes(h: Header) -> Seq<u8> {
    varint_field_bytes(1, h.service_id as nat) + (opt_u32_field_bytes(2, h.method_id) + (
    varint_field_bytes(3, h.token as nat) + (opt_u64_field_bytes(4, h.object_id) + (
    opt_u32_field_bytes(5, h.size) + opt_u32_field_bytes(6, h.status)))))
}

fn put_opt_u32_field(tag: u32, v: Option<u32>, buf: &mut Vec<u8>)
    requires
        1 <= tag <= 6,
    ensures
        final(buf)@ == old(buf)@ + opt_u32_field_bytes(tag as nat, v),
{
    if let Some(x) = v {
        put_varint_field(tag, x as u64, buf);
    } else {
        assert(buf@ =~= old(buf)@ + opt_u32_field_bytes(tag as nat, v));
    }
}

fn put_opt_u64_field(tag: u32, v: Option<u64>, buf: &mut Vec<u8>)
    requires
        1 <= tag <= 6,
    ensures
        final(buf)@ == old(buf)@ + opt_u64_field_bytes(tag as nat, v),
{
    if let Some(x) = v {
        put_varint_field(tag, x, buf);
    } else {
        assert(buf@ =~= old(buf)@ + opt_u64_field_bytes(tag as nat, v));
    }
}

/// Appends the header's protobuf encoding (`Message::encode`).
pub fn encode_header(h: &Header, buf: &mut Vec<u8>)
    ensures
        final(buf)@ == old(buf)@ + header_bytes(*h),
{
    let ghost start = buf@;
    let ghost p1 = varint_field_bytes(1, h.service_id as nat);
    let ghost p2 = opt_u32_field_bytes(2, h.method_id);
    let ghost p3 = varint_field_bytes(3, h.token as nat);
    let ghost p4 = opt_u64_field_bytes(4, h.object_id);
    let ghost p5 = opt_u32_field_bytes(5, h.size);
    let ghost p6 = opt_u32_field_bytes(6, h.status);
    put_varint_field(1, h.service_id as u64, buf);
    put_opt_u32_field(2, h.method_id, buf);
    assert(buf@ =~= start + (p1 + p2));
    put_varint_field(3, h.token as u64, buf);
    assert(buf@ =~= start + (p1 + p2 + p3));
    put_opt_u64_field(4, h.object_id, buf);
    assert(buf@ =~= start + (p1 + p2 + p3 + p4));
    put_opt_u32_field(5, h.size, buf);
    assert(buf@ =~= start + (p1 + p2 + p3 + p4 + p5));
    put_opt_u32_field(6, h.status, buf);
    assert(buf@ =~= start + (p1 + (p2 + (p3 + (p4 + (p5 + p6))))));
}

/// Length of the header's encoding (`Message::encoded_len`).
pub fn header_encoded_len(h: &Header) -> (n: usize)
    ensures
        n == header_bytes(*h).len(),
{
    let mut v: Vec<u8> = Vec::new();
    encode_header(h, &mut v);
    assert(v@ =~= header_bytes(*h));
    v.len()
}

// ---------------------------------------------------------------------------
// Decoding what was encoded
// ---------------------------------------------------------------------------
/// A key and a varint value written at `pos` are read back as one field.
pub proof fn lemma_varint_field_read(s: Seq<u8>, pos: int, tag: u32, v: u64)
    requires
        1 <= tag <= MAX_TAG,
        0 <= pos,
        pos + varint_field_bytes(tag as nat, v as nat).len() <= s.len(),
        s.subrange(pos, pos + varint_field_bytes(tag as nat, v as nat).len()) == varint_field_bytes(
            tag as nat,
            v as nat,
        ),
    ensures
        spec_read_key(s, pos) == Ok::<(u32, WireKind, int), DecodeFault>(
            (tag, WireKind::Varint, pos + varint_bytes(tag as nat * 8).len()),
        ),
        spec_read_varint_field(WireKind::Varint, s, pos + varint_bytes(tag as nat * 8).len())
            == Ok::<(u64, int), DecodeFault>((v, pos + varint_field_bytes(tag as nat, v as nat).len())),
{
    let kb = varint_bytes(tag as nat * 8);
    let vb = varint_bytes(v as nat);
    let piece = varint_field_bytes(tag as nat, v as nat);
    let key = (tag as nat * 8) as u64;
    assert(piece == kb + vb);
    assert forall|j: int| 0 <= j < kb.len() implies #[trigger] s[pos + j] == varint_bytes(key as nat)[j] by {
        assert(s.subrange(pos, pos + piece.len())[j] == piece[j]);
    }
    lemma_varint_roundtrip(key, s, pos);
    assert forall|j: int| 0 <= j < vb.len() implies #[trigger] s[pos + kb.len() + j] == varint_bytes(v as nat)[j] by {
        assert(s.subrange(pos, pos + piece.len())[kb.len() + j] == piece[kb.len() + j]);
    }
    lemma_varint_roundtrip(v, s, pos + kb.len());
}

/// One encoded header field advances the merge by exactly that field.
pub proof fn lemma_header_merge_field(
    g: Header,
    s: Seq<u8>,
    pos: int,
    end: int,
    tag: u32,
    v: u64,
    rest: Seq<u8>,
)
    requires
        is_header_tag(tag),
        0 <= pos <= end <= s.len(),
        s.subrange(pos, end) == varint_field_bytes(tag as nat, v as nat) + rest,
    ensures
        header_merge(g, s, pos, end) == header_merge(
            header_set(g, tag, v),
            s,
            pos + varint_field_bytes(tag as nat, v as nat).len(),
            end,
        ),
        s.subrange(pos + varint_field_bytes(tag as nat, v as nat).len(), end) == rest,
{
    let piece = varint_field_bytes(tag as nat, v as nat);
    let n = piece.len() as int;
    assert(s.subrange(pos, end).len() == end - pos);
    assert((piece + rest).len() == n + rest.len());
    assert(pos + n <= end);
    assert(s.subrange(pos, pos + n) =~= piece) by {
        assert forall|j: int| 0 <= j < n implies s.subrange(pos, pos + n)[j] == piece[j] by {
            assert(s.subrange(pos, end)[j] == (piece + rest)[j]);
        }
    }
    assert(s.subrange(pos + n, end) =~= rest) by {
        assert forall|j: int| 0 <= j < rest.len() implies s.subrange(pos + n, end)[j] == rest[j] by {
            assert(s.subrange(pos, end)[n + j] == (piece + rest)[n + j]);
        }
    }
    lemma_varint_field_read(s, pos, tag, v);
    lemma_varint_u64_len(v);
}

/// The header after an optional 32-bit field has been merged.
pub open spec fn header_set_opt_u32(g: Header, tag: u32, v: Option<u32>) -> Header {
    match v {
        Some(x) => header_set(g, tag, x as u64),
        None => g,
    }
}

pub proof fn lemma_header_merge_opt_u32(
    g: Header,
    s: Seq<u8>,
    pos: int,
    end: int,
    tag: u32,
    v: Option<u32>,
    rest: Seq<u8>,
)
    requires
        is_header_tag(tag),
        0 <= pos <= end <= s.len(),
        s.subrange(pos, end) == opt_u32_field_bytes(tag as nat, v) + rest,
    ensures
        header_merge(g, s, pos, end) == header_merge(
            header_set_opt_u32(g, tag, v),
            s,
            pos + opt_u32_field_bytes(tag as nat, v).len(),
            end,
        ),
        s.subrange(pos + opt_u32_field_bytes(tag as nat, v).len(), end) == rest,
{
    match v {
        Some(x) => lemma_header_merge_field(g, s, pos, end, tag, x as u64, rest),
        None => {
            assert(opt_u32_field_bytes(tag as nat, v) + rest =~= rest);
        },
    }
}

/// Decoding a header's encoding gives the header back.
pub proof fn lemma_header_roundtrip(h: Header)
    ensures
        spec_decode_header(header_bytes(h)) == Ok::<Header, DecodeFault>(h),
{
    let s = header_bytes(h);
    let end = s.len() as int;
    let p1 = varint_field_bytes(1, h.service_id as nat);
    let p2 = opt_u32_field_bytes(2, h.method_id);
    let p3 = varint_field_bytes(3, h.token as nat);
    let p4 = opt_u64_field_bytes(4, h.object_id);
    let p5 = opt_u32_field_bytes(5, h.size);
    let p6 = opt_u32_field_bytes(6, h.status);
    let r5 = p6;
    let r4 = p5 + r5;
    let r3 = p4 + r4;
    let r2 = p3 + r3;
    let r1 = p2 + r2;
    assert(s.subrange(0, end) =~= p1 + r1);
    lemma_header_merge_field(empty_header(), s, 0, end, 1, h.service_id as u64, r1);
    let g1 = header_set(empty_header(), 1, h.service_id as u64);
    let o2 = p1.len() as int;
    lemma_header_merge_opt_u32(g1, s, o2, end, 2, h.method_id, r2);
    let g2 = header_set_opt_u32(g1, 2, h.method_id);
    let o3 = o2 + p2.len();
    lemma_header_merge_field(g2, s, o3, end, 3, h.token as u64, r3);
    let g3 = header_set(g2, 3, h.token as u64);
    let o4 = o3 + p3.len();
    let g4 = match h.object_id {
        Some(o) => {
            lemma_header_merge_field(g3, s, o4, end, 4, o, r4);
            header_set(g3, 4, o)
        },
        None => {
            assert(p4 + r4 =~= r4);
            g3
        },
    };
    let o5 = o4 + p4.len();
    lemma_header_merge_opt_u32(g4, s, o5, end, 5, h.size, r5);
    let g5 = header_set_opt_u32(g4, 5, h.size);
    let o6 = o5 + p5.len();
    assert(r5 =~= p6 + Seq::<u8>::empty());
    lemma_header_merge_opt_u32(g5, s, o6, end, 6, h.status, Seq::<u8>::empty());
    let g6 = header_set_opt_u32(g5, 6, h.status);
    assert(o6 + p6.len() == end);
    assert(g6 == h);
}

/// A header's encoding is short: at most six fields of one key byte and a
/// varint of at most ten bytes.
pub proof fn lemma_header_bytes_len(h: Header)
    ensures
        header_bytes(h).len() <= 66,
{
    lemma_varint_u64_len(h.service_id as u64);
    lemma_varint_u64_len(h.token as u64);
    lemma_varint_u64_len(8);
    lemma_varint_u64_len(16);
    lemma_varint_u64_len(24);
    lemma_varint_u64_len(32);
    lemma_varint_u64_len(40);
    lemma_varint_u64_len(48);
    assert(varint_bytes(8).len() == 1);
    assert(varint_bytes(16).len() == 1);
    assert(varint_bytes(24).len() == 1);
    assert(varint_bytes(32).len() == 1);
    assert(varint_bytes(40).len() == 1);
    assert(varint_bytes(48).len() == 1);
    if let Some(m) = h.method_id {
        lemma_varint_u64_len(m as u64);
    }
    if let Some(o) = h.object_id {
        lemma_varint_u64_len(o);
    }
    if let Some(z) = h.size {
        lemma_varint_u64_len(z as u64);
    }
    if let Some(st) = h.status {
        lemma_varint_u64_len(st as u64);
    }
}

} // verus!

//! Protobuf wire format: varints, field keys and the field readers that the
//! message codecs are built from.
//!
//! Decoding works on a whole buffer and a position in it, the way the
//! protobuf runtime reads a `Buf`: a nested region is given by the position
//! where it must end, and readers inside it may look past that position,
//! after which the region check reports the overrun.
use vstd::prelude::*;

verus! {

/// Why a protobuf buffer could not be decoded.
#[derive(Debug, Clone, Copy, PartialEq, Eq, Structural)]
pub enum DecodeFault {
    /// A varint was truncated or longer than ten bytes.
    InvalidVarint,
    /// A field key does not fit in 32 bits.
    InvalidKeyValue,
    /// A field key names a wire type that is not 0, 1, 2 or 5.
    InvalidWireTypeValue,
    /// A field key carries tag 0.
    InvalidTag,
    /// A known field arrived with the wrong wire type.
    InvalidWireType,
    /// A length or fixed-width value runs past the end of the buffer.
    BufferUnderflow,
    /// A nested message or packed field read past the end of its region.
    DelimitedLengthExceeded,
}

/// The protobuf wire types.
#[derive(Debug, Clone, Copy, PartialEq, Eq, Structural)]
pub enum WireKind {
    Varint,
    SixtyFourBit,
    LengthDelimited,
    ThirtyTwoBit,
}

/// Largest field tag protobuf allows.
pub const MAX_TAG: u32 = 0x1fff_ffff;

/// The three low bits of a field key for each wire type.
pub open spec fn wire_code(k: WireKind) -> nat {
    match k {
        WireKind::Varint => 0,
        WireKind::SixtyFourBit => 1,
        WireKind::LengthDelimited => 2,
        WireKind::ThirtyTwoBit => 5,
    }
}

/// The wire type that the three low bits of a key name, if any.
pub open spec fn wire_kind_of_code(code: nat) -> Option<WireKind> {
    if code == 0 {
        Some(WireKind::Varint)
    } else if code == 1 {
        Some(WireKind::SixtyFourBit)
    } else if code == 2 {
        Some(WireKind::LengthDelimited)
    } else if code == 5 {
        Some(WireKind::ThirtyTwoBit)
    } else {
        None
    }
}

pub open spec fn pow2_64() -> nat {
    0x1_0000_0000_0000_0000
}

pub open spec fn pow2_32() -> nat {
    0x1_0000_0000
}

// ---------------------------------------------------------------------------
// Varints
// ---------------------------------------------------------------------------
/// LEB128 reading of the bytes `s[pos + i ..]`, at most ten bytes in all:
/// the unbounded value of bytes `i..` and the index just past the last one.
pub open spec fn varint_from(s: Seq<u8>, pos: int, i: int) -> Option<(nat, int)>
    decreases 10 - i,
{
    if i >= 10 || pos + i >= s.len() {
        None
    } else if s[pos + i] < 128 {
        Some((s[pos + i] as nat, i + 1))
    } else {
        match varint_from(s, pos, i + 1) {
            Some((v, n)) => Some(((s[pos + i] - 128) as nat + 128 * v, n)),
            None => None,
        }
    }
}

/// The varint that starts at `pos`: its value modulo 2^64 and the position
/// just after it; `None` when no terminating byte occurs within ten bytes
/// or before the end of `s`.
pub open spec fn varint_at(s: Seq<u8>, pos: int) -> Option<(u64, int)> {
    match varint_from(s, pos, 0) {
        Some((v, n)) => Some(((v % pow2_64()) as u64, pos + n)),
        None => None,
    }
}

/// The shortest LEB128 encoding of `v`.
pub open spec fn varint_bytes(v: nat) -> Seq<u8>
    decreases v,
{
    if v < 128 {
        seq![v as u8]
    } else {
        seq![(v % 128 + 128) as u8] + varint_bytes(v / 128)
    }
}

pub open spec fn pow128(k: nat) -> nat
    decreases k,
{
    if k == 0 {
        1
    } else {
        128 * pow128((k - 1) as nat)
    }
}

pub proof fn lemma_varint_from_bounds(s: Seq<u8>, pos: int, i: int)
    ensures
        varint_from(s, pos, i) matches Some((v, n)) ==> i < n <= 10 && pos + n <= s.len(),
    decreases 10 - i,
{
    if i < 10 && pos + i < s.len() && s[pos + i] >= 128 {
        lemma_varint_from_bounds(s, pos, i + 1);
    }
}

pub proof fn lemma_varint_at_bounds(s: Seq<u8>, pos: int)
    ensures
        varint_at(s, pos) matches Some((v, q)) ==> pos < q <= s.len() && q <= pos + 10,
{
    lemma_varint_from_bounds(s, pos, 0);
}

pub proof fn lemma_varint_bytes_len(v: nat, k: nat)
    requires
        v < pow128(k),
        k >= 1,
    ensures
        1 <= varint_bytes(v).len() <= k,
    decreases v,
{
    if v >= 128 {
        assert(v / 128 < pow128((k - 1) as nat)) by {
            assert(pow128(k) == 128 * pow128((k - 1) as nat));
        }
        if k == 1 {
            assert(pow128(1) == 128 * pow128(0));
        }
        lemma_varint_bytes_len(v / 128, (k - 1) as nat);
    }
}

pub proof fn lemma_pow128_ten()
    ensures
        pow128(10) == 0x40_0000_0000_0000_0000,
{
    reveal_with_fuel(pow128, 11);
}

/// Every 64-bit value encodes in at most ten bytes.
pub proof fn lemma_varint_u64_len(v: u64)
    ensures
        1 <= varint_bytes(v as nat).len() <= 10,
{
    lemma_pow128_ten();
    lemma_varint_bytes_len(v as nat, 10);
}

/// Reading back an encoded varint, placed anywhere in a buffer.
pub proof fn lemma_varint_from_encoded(v: nat, s: Seq<u8>, pos: int, i: int)
    requires
        i + varint_bytes(v).len() <= 10,
        pos + i + varint_bytes(v).len() <= s.len(),
        forall|j: int| 0 <= j < varint_bytes(v).len() ==> #[trigger] s[pos + i + j] == varint_bytes(v)[j],
    ensures
        varint_from(s, pos, i) == Some((v, i + varint_bytes(v).len())),
    decreases v,
{
    let e = varint_bytes(v);
    if v < 128 {
        assert(s[pos + i + 0] == e[0]);
    } else {
        let tail = varint_bytes(v / 128);
        assert(e == seq![(v % 128 + 128) as u8] + tail);
        assert(s[pos + i + 0] == e[0]);
        assert forall|j: int| 0 <= j < tail.len() implies #[trigger] s[pos + (i + 1) + j] == tail[j] by {
            assert(s[pos + i + (j + 1)] == e[j + 1]);
        }
        lemma_varint_from_encoded(v / 128, s, pos, i + 1);
    }
}

/// `varint_at` reads back what `varint_bytes` wrote.
pub proof fn lemma_varint_roundtrip(v: u64, s: Seq<u8>, pos: int)
    requires
        pos + varint_bytes(v as nat).len() <= s.len(),
        forall|j: int|
            0 <= j < varint_bytes(v as nat).len() ==> #[trigger] s[pos + j] == varint_bytes(v as nat)[j],
    ensures
        varint_at(s, pos) == Some((v, pos + varint_bytes(v as nat).len())),
{
    lemma_varint_u64_len(v);
    assert forall|j: int| 0 <= j < varint_bytes(v as nat).len() implies #[trigger] s[pos + 0 + j]
        == varint_bytes(v as nat)[j] by {
        assert(s[pos + j] == varint_bytes(v as nat)[j]);
    }
    lemma_varint_from_encoded(v as nat, s, pos, 0);
}

// ---------------------------------------------------------------------------
// Calls into the protobuf runtime
// ---------------------------------------------------------------------------
/// `prost::DecodeError`, known to Verus as an opaque type.
#[verifier::external_type_specification]
#[verifier::external_body]
pub struct ExDecodeError(prost::DecodeError);

/// `prost::encoding::encode_varint` with a `Vec<u8>` as the buffer: appends
/// the LEB128 encoding of `value` (seven bits per byte, low bits first, the
/// high bit set on every byte but the last). The vector grows as needed; as
/// in vstd's model of `Vec`, running out of memory is not part of the
/// contract.
#[verifier::external_body]
pub fn pb_encode_varint(value: u64, buf: &mut Vec<u8>)
    ensures
        final(buf)@ == old(buf)@ + varint_bytes(value as nat),
{
    prost::encoding::encode_varint(value, buf)
}

/// `prost::encoding::decode_varint` on the bytes of `buf` from `pos` (read
/// through a cursor): on success gives the value and how many bytes the
/// varint took. It fails exactly when no byte below 0x80 occurs among the
/// first ten bytes (or before the end); the value is the LEB128 sum modulo
/// 2^64.
#[verifier::external_body]
pub fn pb_decode_varint(buf: &[u8], pos: usize) -> (res: Result<(u64, u64), prost::DecodeError>)
    requires
        pos <= buf@.len(),
    ensures
        match varint_at(buf@, pos as int) {
            Some((v, q)) => res matches Ok((r, used)) && r == v && used == q - pos,
            None => res is Err,
        },
{
    let mut cursor = std::io::Cursor::new(&buf[pos..]);
    let value = prost::encoding::decode_varint(&mut cursor)?;
    Ok((value, cursor.position()))
}

/// `prost::encoding::encode_key`: appends the varint `tag << 3 | wire type`.
/// The runtime asserts (in debug builds) that the tag is between 1 and
/// `MAX_TAG`.
#[verifier::external_body]
pub fn pb_encode_key(tag: u32, kind: WireKind, buf: &mut Vec<u8>)
    requires
        1 <= tag <= MAX_TAG,
    ensures
        final(buf)@ == old(buf)@ + varint_bytes(tag as nat * 8 + wire_code(kind)),
{
    let wire_type = match kind {
        WireKind::Varint => prost::encoding::WireType::Varint,
        WireKind::SixtyFourBit => prost::encoding::WireType::SixtyFourBit,
        WireKind::LengthDelimited => prost::encoding::WireType::LengthDelimited,
        WireKind::ThirtyTwoBit => prost::encoding::WireType::ThirtyTwoBit,
    };
    prost::encoding::encode_key(tag, wire_type, buf)
}

// ---------------------------------------------------------------------------
// Field readers: what each returns, as spec functions over (buffer, position)
// ---------------------------------------------------------------------------
/// The varint at `pos`, or `InvalidVarint`.
pub open spec fn spec_read_varint(s: Seq<u8>, pos: int) -> Result<(u64, int), DecodeFault> {
    match varint_at(s, pos) {
        Some((v, q)) => Ok((v, q)),
        None => Err(DecodeFault::InvalidVarint),
    }
}

/// A field key at `pos`: its tag, its wire type and the position after it.
pub open spec fn spec_read_key(s: Seq<u8>, pos: int) -> Result<(u32, WireKind, int), DecodeFault> {
    match varint_at(s, pos) {
        None => Err(DecodeFault::InvalidVarint),
        Some((key, q)) => if key > u32::MAX {
            Err(DecodeFault::InvalidKeyValue)
        } else {
            match wire_kind_of_code((key % 8) as nat) {
                None => Err(DecodeFault::InvalidWireTypeValue),
                Some(kind) => if key / 8 < 1 {
                    Err(DecodeFault::InvalidTag)
                } else {
                    Ok(((key / 8) as u32, kind, q))
                },
            }
        },
    }
}

/// A scalar varint field's value (wire type must be varint).
pub open spec fn spec_read_varint_field(kind: WireKind, s: Seq<u8>, pos: int) -> Result<
    (u64, int),
    DecodeFault,
> {
    if kind != WireKind::Varint {
        Err(DecodeFault::InvalidWireType)
    } else {
        spec_read_varint(s, pos)
    }
}

/// Little-endian value of four bytes at `pos`.
pub open spec fn le32_at(s: Seq<u8>, pos: int) -> u32 {
    (s[pos] as nat + 256 * (s[pos + 1] as nat) + 65536 * (s[pos + 2] as nat) + 16777216 * (
    s[pos + 3] as nat)) as u32
}

/// A raw four-byte little-endian value at `pos` (no wire type check).
pub open spec fn spec_read_fixed32(s: Seq<u8>, pos: int) -> Result<(u32, int), DecodeFault> {
    if pos + 4 > s.len() {
        Err(DecodeFault::BufferUnderflow)
    } else {
        Ok((le32_at(s, pos), pos + 4))
    }
}

/// A `fixed32` field's value (wire type must be 32-bit).
pub open spec fn spec_read_fixed32_field(kind: WireKind, s: Seq<u8>, pos: int) -> Result<
    (u32, int),
    DecodeFault,
> {
    if kind != WireKind::ThirtyTwoBit {
        Err(DecodeFault::InvalidWireType)
    } else {
        spec_read_fixed32(s, pos)
    }
}

/// The region of a length-delimited value at `pos`: where its bytes start
/// and end.
pub open spec fn spec_read_delimited(s: Seq<u8>, pos: int) -> Result<(int, int), DecodeFault> {
    match varint_at(s, pos) {
        None => Err(DecodeFault::InvalidVarint),
        Some((len, q)) => if len > s.len() - q {
            Err(DecodeFault::BufferUnderflow)
        } else {
            Ok((q, q + len))
        },
    }
}

/// The position after an unknown field's value of the given wire type.
pub open spec fn spec_skip_field(kind: WireKind, s: Seq<u8>, pos: int) -> Result<int, DecodeFault> {
    match kind {
        WireKind::Varint => match varint_at(s, pos) {
            None => Err(DecodeFault::InvalidVarint),
            Some((v, q)) => Ok(q),
        },
        WireKind::ThirtyTwoBit => if 4 > s.len() - pos {
            Err(DecodeFault::BufferUnderflow)
        } else {
            Ok(pos + 4)
        },
        WireKind::SixtyFourBit => if 8 > s.len() - pos {
            Err(DecodeFault::BufferUnderflow)
        } else {
            Ok(pos + 8)
        },
        WireKind::LengthDelimited => match spec_read_delimited(s, pos) {
            Err(e) => Err(e),
            Ok((start, end)) => Ok(end),
        },
    }
}

pub proof fn lemma_reader_bounds(s: Seq<u8>, pos: int, kind: WireKind)
    ensures
        spec_read_varint(s, pos) matches Ok((v, q)) ==> pos < q <= s.len(),
        spec_read_key(s, pos) matches Ok((t, k, q)) ==> pos < q <= s.len(),
        spec_read_varint_field(kind, s, pos) matches Ok((v, q)) ==> pos < q <= s.len(),
        spec_read_fixed32(s, pos) matches Ok((v, q)) ==> pos < q <= s.len(),
        spec_read_fixed32_field(kind, s, pos) matches Ok((v, q)) ==> pos < q <= s.len(),
        spec_read_delimited(s, pos) matches Ok((a, b)) ==> pos < a <= b <= s.len(),
        spec_skip_field(kind, s, pos) matches Ok(q) ==> pos < q <= s.len(),
{
    lemma_varint_at_bounds(s, pos);
}

// ---------------------------------------------------------------------------
// Field readers: executable
// ---------------------------------------------------------------------------
pub open spec fn same_pos_result<T>(res: Result<(T, usize), DecodeFault>, spec: Result<(T, int), DecodeFault>) -> bool {
    match res {
        Ok((v, p)) => spec == Ok::<(T, int), DecodeFault>((v, p as int)),
        Err(e) => spec == Err::<(T, int), DecodeFault>(e),
    }
}

pub fn read_varint(buf: &[u8], pos: usize) -> (res: Result<(u64, usize), DecodeFault>)
    requires
        pos <= buf@.len(),
    ensures
        same_pos_result(res, spec_read_varint(buf@, pos as int)),
{
    proof {
        lemma_varint_at_bounds(buf@, pos as int);
    }
    let total = buf.len();
    match pb_decode_varint(buf, pos) {
        Ok((v, used)) => {
            assert(varint_at(buf@, pos as int) is Some);
            assert(used + pos <= buf@.len());
            let used = used as usize;
            assert(used + pos <= total);
            Ok((v, pos + used))
        },
        Err(_) => Err(DecodeFault::InvalidVarint),
    }
}

pub fn read_key(buf: &[u8], pos: usize) -> (res: Result<(u32, WireKind, usize), DecodeFault>)
    requires
        pos <= buf@.len(),
    ensures
        match res {
            Ok((t, k, p)) => spec_read_key(buf@, pos as int) == Ok::<(u32, WireKind, int), DecodeFault>((t, k, p as int)),
            Err(e) => spec_read_key(buf@, pos as int) == Err::<(u32, WireKind, int), DecodeFault>(e),
        },
{
    let (key, q) = read_varint(buf, pos)?;
    proof {
        lemma_varint_at_bounds(buf@, pos as int);
    }
    if key > 0xffff_ffff {
        return Err(DecodeFault::InvalidKeyValue);
    }
    let code = key % 8;
    let kind = if code == 0 {
        WireKind::Varint
    } else if code == 1 {
        WireKind::SixtyFourBit
    } else if code == 2 {
        WireKind::LengthDelimited
    } else if code == 5 {
        WireKind::ThirtyTwoBit
    } else {
        return Err(DecodeFault::InvalidWireTypeValue);
    };
    let tag = key / 8;
    if tag < 1 {
        return Err(DecodeFault::InvalidTag);
    }
    Ok((tag as u32, kind, q))
}

pub fn read_varint_field(kind: WireKind, buf: &[u8], pos: usize) -> (res: Result<(u64, usize), DecodeFault>)
    requires
        pos <= buf@.len(),
    ensures
        same_pos_result(res, spec_read_varint_field(kind, buf@, pos as int)),
{
    if kind != WireKind::Varint {
        return Err(DecodeFault::InvalidWireType);
    }
    read_varint(buf, pos)
}

pub fn read_fixed32(buf: &[u8], pos: usize) -> (res: Result<(u32, usize), DecodeFault>)
    requires
        pos <= buf@.len(),
    ensures
        same_pos_result(res, spec_read_fixed32(buf@, pos as int)),
{
    if buf.len() - pos < 4 {
        return Err(DecodeFault::BufferUnderflow);
    }
    let v: u32 = buf[pos] as u32 + 256 * (buf[pos + 1] as u32) + 65536 * (buf[pos + 2] as u32)
        + 16777216 * (buf[pos + 3] as u32);
    Ok((v, pos + 4))
}

pub fn read_fixed32_field(kind: WireKind, buf: &[u8], pos: usize) -> (res: Result<(u32, usize), DecodeFault>)
    requires
        pos <= buf@.len(),
    ensures
        same_pos_result(res, spec_read_fixed32_field(kind, buf@, pos as int)),
{
    if kind != WireKind::ThirtyTwoBit {
        return Err(DecodeFault::InvalidWireType);
    }
    read_fixed32(buf, pos)
}

pub fn read_delimited(buf: &[u8], pos: usize) -> (res: Result<(usize, usize), DecodeFault>)
    requires
        pos <= buf@.len(),
    ensures
        match res {
            Ok((a, b)) => spec_read_delimited(buf@, pos as int) == Ok::<(int, int), DecodeFault>((a as int, b as int)),
            Err(e) => spec_read_delimited(buf@, pos as int) == Err::<(int, int), DecodeFault>(e),
        },
{
    let (len, q) = read_varint(buf, pos)?;
    proof {
        lemma_varint_at_bounds(buf@, pos as int);
    }
    if len > (buf.len() - q) as u64 {
        return Err(DecodeFault::BufferUnderflow);
    }
    Ok((q, q + len as usize))
}

pub fn skip_field(kind: WireKind, buf: &[u8], pos: usize) -> (res: Result<usize, DecodeFault>)
    requires
        pos <= buf@.len(),
    ensures
        match res {
            Ok(q) => spec_skip_field(kind, buf@, pos as int) == Ok::<int, DecodeFault>(q as int),
            Err(e) => spec_skip_field(kind, buf@, pos as int) == Err::<int, DecodeFault>(e),
        },
{
    match kind {
        WireKind::Varint => {
            let (_v, q) = read_varint(buf, pos)?;
            Ok(q)
        },
        WireKind::ThirtyTwoBit => {
            if 4 > buf.len() - pos {
                Err(DecodeFault::BufferUnderflow)
            } else {
                Ok(pos + 4)
            }
        },
        WireKind::SixtyFourBit => {
            if 8 > buf.len() - pos {
                Err(DecodeFault::BufferUnderflow)
            } else {
                Ok(pos + 8)
            }
        },
        WireKind::LengthDelimited => {
            let (_start, end) = read_delimited(buf, pos)?;
            Ok(end)
        },
    }
}

// ---------------------------------------------------------------------------
// Field writers
// ---------------------------------------------------------------------------
/// A field key: the varint `tag << 3 | wire type`.
pub open spec fn key_bytes(tag: nat, kind: WireKind) -> Seq<u8> {
    varint_bytes(tag * 8 + wire_code(kind))
}

/// A varint field: key with wire type 0, then the value.
pub open spec fn varint_field_bytes(tag: nat, v: nat) -> Seq<u8> {
    varint_bytes(tag * 8) + varint_bytes(v)
}

/// A length-delimited field: key, the payload's length, the payload.
pub open spec fn delimited_field_bytes(tag: nat, payload: Seq<u8>) -> Seq<u8> {
    key_bytes(tag, WireKind::LengthDelimited) + varint_bytes(payload.len()) + payload
}

/// Appends a varint field (`uint32::encode`, `uint64::encode`).
pub fn put_varint_field(tag: u32, v: u64, buf: &mut Vec<u8>)
    requires
        1 <= tag <= MAX_TAG,
    ensures
        final(buf)@ == old(buf)@ + varint_field_bytes(tag as nat, v as nat),
{
    pb_encode_key(tag, WireKind::Varint, buf);
    pb_encode_varint(v, buf);
    proof {
        assert(final(buf)@ =~= old(buf)@ + varint_field_bytes(tag as nat, v as nat));
    }
}

/// Appends a length-delimited field whose payload is already encoded
/// (`message::encode`); the payload vector is emptied.
pub fn put_delimited_field(tag: u32, payload: &mut Vec<u8>, buf: &mut Vec<u8>)
    requires
        1 <= tag <= MAX_TAG,
    ensures
        final(buf)@ == old(buf)@ + delimited_field_bytes(tag as nat, old(payload)@),
{
    let ghost p = payload@;
    pb_encode_key(tag, WireKind::LengthDelimited, buf);
    pb_encode_varint(payload.len() as u64, buf);
    buf.append(payload);
    proof {
        assert(final(buf)@ =~= old(buf)@ + delimited_field_bytes(tag as nat, p));
    }
}

} // verus!

//! Framing of Battle.net packets on a byte stream.
//!
//! A frame is a two-byte big-endian length, the protobuf-encoded header of
//! that length, then a body of as many bytes as the header's `size` field
//! says.
use crate::buffers::{
    bytes_as_slice, bytes_len, bytes_mut_extend, bytes_mut_freeze, bytes_mut_len, bytes_mut_reserve,
    bytes_mut_seq, bytes_mut_split_to, bytes_seq, read_u16_be, u16_be_bytes,
};
use crate::header::{
    decode_header, encode_header, header_bytes, lemma_header_bytes_len, lemma_header_roundtrip,
    spec_decode_header, Header,
};
use crate::wire::DecodeFault;
use bytes::{Bytes, BytesMut};
use vstd::prelude::*;

verus! {

/// Length of the big-endian preamble that carries the header length.
pub const HEADER_PREAMBLE_LENGTH: usize = 2;

/// A header field that a frame must carry but did not.
#[derive(Debug, Clone, Copy, PartialEq, Eq, Structural)]
pub enum MissingField {
    /// The header has no `size`, so the body length is unknown.
    Size,
}

impl MissingField {
    /// The field's name as the protocol spells it.
    pub fn name(&self) -> (s: &'static str)
        ensures
            s@ == "Size"@,
    {
        "Size"
    }
}

/// Why a frame could not be read.
#[derive(Debug, Clone, Copy, PartialEq, Eq, Structural)]
pub enum FrameError {
    /// The header bytes are not a valid protobuf header.
    ProtoDecode(DecodeFault),
    /// The client tries to perform a TLS handshake.
    TlsEnabled,
    /// A required header field is absent.
    MissingData(MissingField),
}

/// A packet: its header and its body.
#[derive(Debug)]
pub struct BNetPacket {
    pub header: Header,
    pub body: Bytes,
}

/// A packet as values: the header and the body's bytes.
pub open spec fn packet_view(p: BNetPacket) -> (Header, Seq<u8>) {
    (p.header, bytes_seq(p.body))
}

impl BNetPacket {
    pub fn new(header: Header, body: Bytes) -> (p: Self)
        ensures
            p.header == header,
            p.body == body,
    {
        Self { header, body }
    }
}

/// The decoder's progress through the current frame: the header length
/// once the preamble was read, the header once it was decoded, and the body
/// size the last header announced.
pub struct BNetCodec {
    header: Option<Header>,
    header_length: Option<u16>,
    body_size: Option<u32>,
}

impl BNetCodec {
    pub closed spec fn spec_header(self) -> Option<Header> {
        self.header
    }

    pub closed spec fn spec_header_length(self) -> Option<u16> {
        self.header_length
    }

    pub closed spec fn spec_body_size(self) -> Option<u32> {
        self.body_size
    }

    /// A codec value with the given progress.
    pub closed spec fn with_state(header: Option<Header>, header_length: Option<u16>, body_size: Option<u32>) -> BNetCodec {
        BNetCodec { header, header_length, body_size }
    }

    /// The codec is between frames: it expects a preamble next.
    pub open spec fn is_idle(self) -> bool {
        self.spec_header() is None && self.spec_header_length() is None
    }

    /// Every header the codec holds came with its header length, and the
    /// body size is that header's `size`.
    pub open spec fn wf(self) -> bool {
        self.spec_header() matches Some(h) ==> {
            &&& self.spec_header_length() is Some
            &&& h.size is Some
            &&& self.spec_body_size() == h.size
        }
    }

    pub fn new() -> (c: Self)
        ensures
            c.spec_header() is None,
            c.spec_header_length() is None,
            c.spec_body_size() is None,
            c.wf(),
    {
        BNetCodec { header: None, header_length: None, body_size: None }
    }
}

pub proof fn lemma_with_state(header: Option<Header>, header_length: Option<u16>, body_size: Option<u32>)
    ensures
        BNetCodec::with_state(header, header_length, body_size).spec_header() == header,
        BNetCodec::with_state(header, header_length, body_size).spec_header_length() == header_length,
        BNetCodec::with_state(header, header_length, body_size).spec_body_size() == body_size,
{
}

/// The result of one `decode` call as values.
pub type DecodeResultView = Result<Option<(Header, Seq<u8>)>, FrameError>;

pub open spec fn be16(s: Seq<u8>) -> u16 {
    (s[0] as nat * 256 + s[1] as nat) as u16
}

/// The last step of `decode`: once the header is known, a body of
/// `body_size` bytes completes the packet and resets the codec for the next
/// frame.
pub open spec fn decode_body(c: BNetCodec, s: Seq<u8>) -> (BNetCodec, Seq<u8>, DecodeResultView) {
    match c.spec_body_size() {
        Some(bs) => if s.len() >= bs {
            (
                BNetCodec::with_state(None, None, c.spec_body_size()),
                s.skip(bs as int),
                Ok(Some((c.spec_header().unwrap(), s.take(bs as int)))),
            )
        } else {
            (c, s, Ok(None))
        },
        None => (c, s, Ok(None)),
    }
}

/// The header stage of `decode`: once the header length is known, wait for
/// that many bytes, decode them as the header and take the body size from
/// it.
pub open spec fn decode_header_stage(c: BNetCodec, s: Seq<u8>) -> (BNetCodec, Seq<u8>, DecodeResultView) {
    if c.spec_header() is None {
        let total = c.spec_header_length().unwrap() as int;
        if s.len() < total {
            (c, s, Ok(None))
        } else {
            let rest = s.skip(total);
            match spec_decode_header(s.take(total)) {
                Err(e) => (c, rest, Err(FrameError::ProtoDecode(e))),
                Ok(h) => match h.size {
                    None => (c, rest, Err(FrameError::MissingData(MissingField::Size))),
                    Some(bs) => decode_body(
                        BNetCodec::with_state(Some(h), c.spec_header_length(), Some(bs)),
                        rest,
                    ),
                },
            }
        }
    } else {
        decode_body(c, s)
    }
}

/// What one call of `decode` does: the codec after it, the bytes left in
/// the source buffer, and the packet (or error) it returns.
pub open spec fn decode_step(c: BNetCodec, src: Seq<u8>) -> (BNetCodec, Seq<u8>, DecodeResultView) {
    if c.spec_header_length() is None {
        if src.len() < 2 {
            (c, src, Ok(None))
        } else {
            decode_header_stage(
                BNetCodec::with_state(c.spec_header(), Some(be16(src)), c.spec_body_size()),
                src.skip(2),
            )
        }
    } else {
        decode_header_stage(c, src)
    }
}

pub open spec fn decode_result_view(r: Result<Option<BNetPacket>, FrameError>) -> DecodeResultView {
    match r {
        Ok(Some(p)) => Ok(Some(packet_view(p))),
        Ok(None) => Ok(None),
        Err(e) => Err(e),
    }
}

/// What follows a frame's length preamble: the header, then the body.
pub open spec fn frame_payload(h: Header, body: Seq<u8>) -> Seq<u8> {
    header_bytes(h) + body
}

/// A whole frame: the header length big-endian in two bytes, the header,
/// the body.
pub open spec fn frame_bytes(h: Header, body: Seq<u8>) -> Seq<u8> {
    let n = (header_bytes(h).len() % 65536) as nat;
    seq![(n / 256) as u8, (n % 256) as u8] + frame_payload(h, body)
}

impl BNetCodec {
    /// Reads one frame from `src` if it is all there. Bytes of a frame that
    /// is not complete yet are consumed stage by stage (preamble, header),
    /// and the progress is kept in the codec.
    pub fn decode(&mut self, src: &mut BytesMut) -> (res: Result<Option<BNetPacket>, FrameError>)
        ensures
            (*final(self), bytes_mut_seq(*final(src)), decode_result_view(res)) == decode_step(
                *old(self),
                bytes_mut_seq(*old(src)),
            ),
            old(self).wf() ==> final(self).wf(),
    {
        if self.header_length.is_none() {
            if bytes_mut_len(src) < 2 {
                return Ok(None);
            }
            let length_buf = bytes_mut_split_to(src, HEADER_PREAMBLE_LENGTH);
            let header_length: u16 = read_u16_be(&length_buf);
            self.header_length = Some(header_length);
        }
        if self.header.is_none() {
            let total_length = self.header_length.unwrap() as usize;
            if bytes_mut_len(src) < total_length {
                return Ok(None);
            }
            let header_buf = bytes_mut_split_to(src, total_length);
            let header_bytes = bytes_mut_freeze(header_buf);
            let header = match decode_header(bytes_as_slice(&header_bytes)) {
                Ok(h) => h,
                Err(e) => return Err(FrameError::ProtoDecode(e)),
            };
            let body_size = match header.size {
                Some(bs) => bs,
                None => return Err(FrameError::MissingData(MissingField::Size)),
            };
            self.body_size = Some(body_size);
            self.header = Some(header);
        }
        if let Some(body_size) = self.body_size {
            let body_size = body_size as usize;
            if bytes_mut_len(src) >= body_size {
                let header = self.header.take().unwrap();
                let body = bytes_mut_split_to(src, body_size);
                self.header_length = None;
                let packet = BNetPacket::new(header, bytes_mut_freeze(body));
                return Ok(Some(packet));
            }
        }
        Ok(None)
    }

    /// Writes a packet as one frame after whatever `destination` holds: the
    /// header length (big-endian, two bytes), the header, the body.
    pub fn encode(&mut self, item: BNetPacket, destination: &mut BytesMut) -> (res: Result<(), FrameError>)
        requires
            bytes_mut_seq(*old(destination)).len() + 2 + header_bytes(item.header).len() + bytes_seq(
                item.body,
            ).len() <= isize::MAX,
        ensures
            res is Ok,
            *final(self) == *old(self),
            bytes_mut_seq(*final(destination)) == bytes_mut_seq(*old(destination)) + frame_bytes(
                item.header,
                bytes_seq(item.body),
            ),
    {
        let BNetPacket { header, body } = item;
        let mut header_buf: Vec<u8> = Vec::new();
        encode_header(&header, &mut header_buf);
        let header_len = header_buf.len();
        let data_length = HEADER_PREAMBLE_LENGTH + header_len + bytes_len(&body);
        bytes_mut_reserve(destination, data_length);
        let header_preamble: u16 = (header_len % 65536) as u16;
        let ghost before = bytes_mut_seq(*destination);
        let preamble: [u8; 2] = u16_be_bytes(header_preamble);
        bytes_mut_extend(destination, preamble.as_slice());
        bytes_mut_extend(destination, header_buf.as_slice());
        bytes_mut_extend(destination, bytes_as_slice(&body));
        proof {
            assert(bytes_mut_seq(*destination) =~= before + frame_bytes(header, bytes_seq(body)));
        }
        Ok(())
    }
}

// ---------------------------------------------------------------------------
// Laws of the codec
// ---------------------------------------------------------------------------
/// A packet can be framed and read back when its header announces the body
/// length and the header fits the two-byte preamble.
pub open spec fn frameable(h: Header, body: Seq<u8>) -> bool {
    &&& h.size == Some(body.len() as u32)
    &&& body.len() <= u32::MAX
    &&& header_bytes(h).len() < 65536
}

/// Decoding a whole frame, from a codec between frames, returns its packet,
/// leaves the bytes after the frame, and makes the codec ready for the next
/// frame.
pub proof fn lemma_decode_frame(c: BNetCodec, h: Header, body: Seq<u8>, rest: Seq<u8>)
    requires
        c.is_idle(),
        frameable(h, body),
    ensures
        decode_step(c, frame_bytes(h, body) + rest) == (
            BNetCodec::with_state(None, None, Some(body.len() as u32)),
            rest,
            Ok::<Option<(Header, Seq<u8>)>, FrameError>(Some((h, body))),
        ),
{
    let hb = header_bytes(h);
    let n = hb.len();
    let src = frame_bytes(h, body) + rest;
    assert(be16(src) == n) by {
        assert(src[0] == (n / 256) as u8);
        assert(src[1] == (n % 256) as u8);
    }
    let c1 = BNetCodec::with_state(c.spec_header(), Some(be16(src)), c.spec_body_size());
    lemma_with_state(c.spec_header(), Some(be16(src)), c.spec_body_size());
    let s1 = src.skip(2);
    assert(s1 =~= hb + (body + rest));
    assert(s1.take(n as int) =~= hb);
    assert(s1.skip(n as int) =~= body + rest);
    lemma_header_roundtrip(h);
    let c2 = BNetCodec::with_state(Some(h), Some(n as u16), Some(body.len() as u32));
    lemma_with_state(Some(h), Some(n as u16), Some(body.len() as u32));
    assert((body + rest).take(body.len() as int) =~= body);
    assert((body + rest).skip(body.len() as int) =~= rest);
}

/// Splitting a frame's bytes over two reads changes nothing: after a read
/// that sees only the first `k` bytes returns no packet, a read with the
/// remaining bytes appended returns the packet, exactly as one read of the
/// whole frame would.
pub proof fn lemma_decode_split(c: BNetCodec, h: Header, body: Seq<u8>, rest: Seq<u8>, k: int)
    requires
        c.is_idle(),
        frameable(h, body),
        0 <= k < frame_bytes(h, body).len(),
    ensures
        ({
            let (c1, s1, r1) = decode_step(c, frame_bytes(h, body).take(k));
            &&& r1 == Ok::<Option<(Header, Seq<u8>)>, FrameError>(None)
            &&& decode_step(c1, s1 + (frame_bytes(h, body).skip(k) + rest)) == decode_step(
                c,
                frame_bytes(h, body) + rest,
            )
        }),
{
    let f = frame_bytes(h, body);
    let hb = header_bytes(h);
    let n = hb.len();
    let first = f.take(k);
    let second = f.skip(k) + rest;
    lemma_decode_frame(c, h, body, rest);
    lemma_header_roundtrip(h);
    if k < 2 {
        assert(first + second =~= f + rest);
    } else {
        assert(be16(first) == n) by {
            assert(first[0] == f[0] && first[1] == f[1]);
            assert(f[0] == (n / 256) as u8);
            assert(f[1] == (n % 256) as u8);
        }
        let c1 = BNetCodec::with_state(c.spec_header(), Some(n as u16), c.spec_body_size());
        lemma_with_state(c.spec_header(), Some(n as u16), c.spec_body_size());
        let s1 = first.skip(2);
        if k < 2 + n {
            // Only the preamble was taken: the second read decodes the header
            // and the body from the remaining bytes.
            assert(s1 + second =~= hb + (body + rest));
            assert((s1 + second).take(n as int) =~= hb);
            assert((s1 + second).skip(n as int) =~= body + rest);
            assert(f + rest =~= seq![f[0], f[1]] + (hb + (body + rest)));
            assert((f + rest).skip(2) =~= hb + (body + rest));
            let c2 = BNetCodec::with_state(Some(h), Some(n as u16), Some(body.len() as u32));
            lemma_with_state(Some(h), Some(n as u16), Some(body.len() as u32));
            assert((body + rest).take(body.len() as int) =~= body);
            assert((body + rest).skip(body.len() as int) =~= rest);
        } else {
            // The header was decoded by the first read; the body is waiting.
            assert(s1.take(n as int) =~= hb);
            let part = s1.skip(n as int);
            assert(part =~= body.take(k - 2 - n));
            let c2 = BNetCodec::with_state(Some(h), Some(n as u16), Some(body.len() as u32));
            lemma_with_state(Some(h), Some(n as u16), Some(body.len() as u32));
            assert(part + second =~= body + rest);
            assert((body + rest).take(body.len() as int) =~= body);
            assert((body + rest).skip(body.len() as int) =~= rest);
        }
    }
}

/// Several frames, one after the other.
pub open spec fn frames_bytes(frames: Seq<(Header, Seq<u8>)>) -> Seq<u8>
    decreases frames.len(),
{
    if frames.len() == 0 {
        Seq::empty()
    } else {
        frame_bytes(frames[0].0, frames[0].1) + frames_bytes(frames.drop_first())
    }
}

/// `n` calls of `decode` in a row on the same buffer: the codec and the
/// bytes left after them, and what each call returned.
pub open spec fn decode_n(c: BNetCodec, src: Seq<u8>, n: nat) -> (BNetCodec, Seq<u8>, Seq<DecodeResultView>)
    decreases n,
{
    if n == 0 {
        (c, src, Seq::empty())
    } else {
        let (c1, s1, r) = decode_step(c, src);
        let (c2, s2, rs) = decode_n(c1, s1, (n - 1) as nat);
        (c2, s2, seq![r] + rs)
    }
}

/// A stream of frames is read back packet by packet, in order: one call of
/// `decode` per frame returns each packet, and the bytes after the last
/// frame are left untouched.
pub proof fn lemma_decode_stream(c: BNetCodec, frames: Seq<(Header, Seq<u8>)>, rest: Seq<u8>)
    requires
        c.is_idle(),
        forall|i: int| 0 <= i < frames.len() ==> frameable(#[trigger] frames[i].0, frames[i].1),
    ensures
        decode_n(c, frames_bytes(frames) + rest, frames.len()).1 == rest,
        decode_n(c, frames_bytes(frames) + rest, frames.len()).2 == frames.map_values(
            |f: (Header, Seq<u8>)| Ok::<Option<(Header, Seq<u8>)>, FrameError>(Some(f)),
        ),
    decreases frames.len(),
{
    if frames.len() > 0 {
        let (h, body) = frames[0];
        let tail = frames.drop_first();
        assert(frameable(frames[0].0, frames[0].1));
        assert(frames_bytes(frames) + rest =~= frame_bytes(h, body) + (frames_bytes(tail) + rest));
        lemma_decode_frame(c, h, body, frames_bytes(tail) + rest);
        let c1 = BNetCodec::with_state(None, None, Some(body.len() as u32));
        lemma_with_state(None, None, Some(body.len() as u32));
        assert forall|i: int| 0 <= i < tail.len() implies frameable(#[trigger] tail[i].0, tail[i].1) by {
            assert(tail[i] == frames[i + 1]);
            assert(frameable(frames[i + 1].0, frames[i + 1].1));
        }
        lemma_decode_stream(c1, tail, rest);
        assert(frames.map_values(|f: (Header, Seq<u8>)| Ok::<Option<(Header, Seq<u8>)>, FrameError>(Some(f)))
            =~= seq![Ok::<Option<(Header, Seq<u8>)>, FrameError>(Some((h, body)))] + tail.map_values(
            |f: (Header, Seq<u8>)| Ok::<Option<(Header, Seq<u8>)>, FrameError>(Some(f)),
        ));
    } else {
        assert(frames.map_values(|f: (Header, Seq<u8>)| Ok::<Option<(Header, Seq<u8>)>, FrameError>(Some(f)))
            =~= Seq::<DecodeResultView>::empty());
        assert(frames_bytes(frames) + rest =~= rest);
    }
}

proof fn lemma_frames_push(frames: Seq<(Header, Seq<u8>)>, h: Header, body: Seq<u8>)
    ensures
        frames_bytes(frames.push((h, body))) == frames_bytes(frames) + frame_bytes(h, body),
    decreases frames.len(),
{
    if frames.len() == 0 {
        let one = frames.push((h, body));
        assert(one.drop_first() =~= Seq::<(Header, Seq<u8>)>::empty());
        assert(frames_bytes(one.drop_first()) == Seq::<u8>::empty());
        assert(one[0] == (h, body));
        assert(frames_bytes(frames) == Seq::<u8>::empty());
        assert(frames_bytes(one) =~= frames_bytes(frames) + frame_bytes(h, body));
    } else {
        lemma_frames_push(frames.drop_first(), h, body);
        assert(frames.push((h, body)).drop_first() =~= frames.drop_first().push((h, body)));
        assert(frames_bytes(frames.push((h, body))) =~= frames_bytes(frames) + frame_bytes(h, body));
    }
}

/// Decoding undoes encoding: a buffer that held whole frames, with a packet
/// encoded after them (as `encode` leaves it), is read back as those frames
/// and then the packet, and what followed is left untouched. With no
/// frames before, this is a packet encoded into an empty buffer.
pub proof fn lemma_encode_decode(
    c: BNetCodec,
    before: Seq<(Header, Seq<u8>)>,
    h: Header,
    body: Seq<u8>,
    rest: Seq<u8>,
)
    requires
        c.is_idle(),
        forall|i: int| 0 <= i < before.len() ==> frameable(#[trigger] before[i].0, before[i].1),
        frameable(h, body),
    ensures
        decode_n(c, frames_bytes(before) + frame_bytes(h, body) + rest, before.len() + 1).1 == rest,
        decode_n(c, frames_bytes(before) + frame_bytes(h, body) + rest, before.len() + 1).2 == before.push(
            (h, body),
        ).map_values(|f: (Header, Seq<u8>)| Ok::<Option<(Header, Seq<u8>)>, FrameError>(Some(f))),
{
    let all = before.push((h, body));
    lemma_frames_push(before, h, body);
    assert forall|i: int| 0 <= i < all.len() implies frameable(#[trigger] all[i].0, all[i].1) by {
        if i < before.len() {
            assert(all[i] == before[i]);
        }
    }
    lemma_decode_stream(c, all, rest);
}

/// The result of a `decode` call that found no whole frame yet.
pub open spec fn waiting() -> DecodeResultView {
    Ok(None)
}

proof fn lemma_body_append(c: BNetCodec, a: Seq<u8>, b: Seq<u8>)
    ensures
        ({
            let (c1, a1, r) = decode_body(c, a);
            &&& r == waiting() ==> c1 == c && a1 == a
            &&& r != waiting() ==> decode_body(c, a + b) == (c1, a1 + b, r)
        }),
{
    if let Some(bs) = c.spec_body_size() {
        if a.len() >= bs {
            assert((a + b).take(bs as int) =~= a.take(bs as int));
            assert((a + b).skip(bs as int) =~= a.skip(bs as int) + b);
        }
    }
}

proof fn lemma_header_stage_append(c: BNetCodec, a: Seq<u8>, b: Seq<u8>)
    requires
        c.spec_header_length() is Some,
    ensures
        ({
            let (c1, a1, r) = decode_header_stage(c, a);
            &&& r == waiting() ==> decode_step(c1, a1 + b) == decode_header_stage(c, a + b)
            &&& r != waiting() ==> decode_header_stage(c, a + b) == (c1, a1 + b, r)
        }),
{
    if c.spec_header() is None {
        let total = c.spec_header_length().unwrap() as int;
        if a.len() >= total {
            let rest = a.skip(total);
            assert((a + b).take(total) =~= a.take(total));
            assert((a + b).skip(total) =~= rest + b);
            if let Ok(h) = spec_decode_header(a.take(total)) {
                if let Some(bs) = h.size {
                    let c2 = BNetCodec::with_state(Some(h), c.spec_header_length(), Some(bs));
                    lemma_with_state(Some(h), c.spec_header_length(), Some(bs));
                    lemma_body_append(c2, rest, b);
                }
            }
        }
    } else {
        lemma_body_append(c, a, b);
    }
}

/// Appending bytes after those one `decode` call saw: if the call returned a
/// packet or an error, it returns the same with the new bytes simply left
/// over; if it was still waiting, the next call on the grown buffer does
/// what a single call on all the bytes would have done.
pub proof fn lemma_step_append(c: BNetCodec, a: Seq<u8>, b: Seq<u8>)
    ensures
        ({
            let (c1, a1, r) = decode_step(c, a);
            &&& r == waiting() ==> decode_step(c1, a1 + b) == decode_step(c, a + b)
            &&& r != waiting() ==> decode_step(c, a + b) == (c1, a1 + b, r)
        }),
{
    if c.spec_header_length() is None {
        if a.len() >= 2 {
            let c1 = BNetCodec::with_state(c.spec_header(), Some(be16(a)), c.spec_body_size());
            lemma_with_state(c.spec_header(), Some(be16(a)), c.spec_body_size());
            assert(be16(a + b) == be16(a)) by {
                assert((a + b)[0] == a[0]);
                assert((a + b)[1] == a[1]);
            }
            assert((a + b).skip(2) =~= a.skip(2) + b);
            lemma_header_stage_append(c1, a.skip(2), b);
        }
    } else {
        lemma_header_stage_append(c, a, b);
    }
}

/// What `drain` lowers with every packet: twice the bytes waiting, plus
/// one while a frame is half read.
pub open spec fn drain_measure(c: BNetCodec, s: Seq<u8>) -> int {
    2 * s.len() + if c.is_idle() {
        0int
    } else {
        1int
    }
}

/// A call of `decode` that returns a packet leaves the codec between
/// frames and lowers the measure.
pub proof fn lemma_step_progress(c: BNetCodec, s: Seq<u8>)
    ensures
        decode_step(c, s).2 matches Ok(Some(_)) ==> {
            &&& decode_step(c, s).0.is_idle()
            &&& drain_measure(decode_step(c, s).0, decode_step(c, s).1) < drain_measure(c, s)
        },
{
    if decode_step(c, s).2 matches Ok(Some(_)) {
        let bs = decode_step(c, s).0.spec_body_size();
        lemma_with_state(None, None, bs);
        if c.spec_header_length() is None {
            let c1 = BNetCodec::with_state(c.spec_header(), Some(be16(s)), c.spec_body_size());
            lemma_with_state(c.spec_header(), Some(be16(s)), c.spec_body_size());
            let s1 = s.skip(2);
            if c.spec_header() is None {
                let total = be16(s) as int;
                let h = spec_decode_header(s1.take(total)).unwrap();
                let c2 = BNetCodec::with_state(Some(h), Some(be16(s)), h.size);
                lemma_with_state(Some(h), Some(be16(s)), h.size);
            }
        } else if c.spec_header() is None {
            let total = c.spec_header_length().unwrap() as int;
            let h = spec_decode_header(s.take(total)).unwrap();
            let c2 = BNetCodec::with_state(Some(h), c.spec_header_length(), h.size);
            lemma_with_state(Some(h), c.spec_header_length(), h.size);
        }
    }
}

/// Calling `decode` until it returns no packet: the codec and the bytes
/// left, and every result in order (the packets, then the `Ok(None)` or
/// the error that ended the run).
pub open spec fn drain(c: BNetCodec, s: Seq<u8>) -> (BNetCodec, Seq<u8>, Seq<DecodeResultView>)
    decreases drain_measure(c, s),
{
    let (c1, s1, r) = decode_step(c, s);
    if r matches Ok(Some(_)) {
        proof {
            lemma_step_progress(c, s);
        }
        let (c2, s2, rs) = drain(c1, s1);
        (c2, s2, seq![r] + rs)
    } else {
        (c1, s1, seq![r])
    }
}

/// Bytes that arrive after a run of `decode` calls change nothing that run
/// returned: if it ended waiting, draining again with the new bytes
/// appended continues exactly as one run over all the bytes; if it ended in
/// an error, one run over all the bytes ends in the same error, with the
/// new bytes left over.
pub proof fn lemma_drain_append(c: BNetCodec, a: Seq<u8>, b: Seq<u8>)
    ensures
        drain(c, a).2.len() >= 1,
        ({
            let (c1, s1, rs) = drain(c, a);
            &&& rs.last() == waiting() ==> {
                let (c2, s2, rs2) = drain(c1, s1 + b);
                drain(c, a + b) == (c2, s2, rs.drop_last() + rs2)
            }
            &&& rs.last() != waiting() ==> drain(c, a + b) == (c1, s1 + b, rs)
        }),
    decreases drain_measure(c, a),
{
    let (c1, a1, r) = decode_step(c, a);
    lemma_step_append(c, a, b);
    lemma_step_progress(c, a);
    if r matches Ok(Some(_)) {
        lemma_drain_append(c1, a1, b);
        let (c3, s3, rs3) = drain(c1, a1);
        assert(drain(c, a) == (c3, s3, seq![r] + rs3));
        assert((seq![r] + rs3).last() == rs3.last());
        assert((seq![r] + rs3).drop_last() =~= seq![r] + rs3.drop_last());
        let (c4, s4, rs4) = drain(c1, a1 + b);
        assert(drain(c, a + b) == (c4, s4, seq![r] + rs4));
        if rs3.last() == waiting() {
            let (c2, s2, rs2) = drain(c3, s3 + b);
            assert(seq![r] + (rs3.drop_last() + rs2) =~= (seq![r] + rs3.drop_last()) + rs2);
        }
    } else if r == waiting() {
        assert(drain(c, a) == (c1, a1, seq![r]));
        assert(seq![r].drop_last() + drain(c1, a1 + b).2 =~= drain(c1, a1 + b).2);
    } else {
        assert(drain(c, a) == (c1, a1, seq![r]));
    }
}

/// Several byte strings, one after the other.
pub open spec fn concat_chunks(chunks: Seq<Seq<u8>>) -> Seq<u8>
    decreases chunks.len(),
{
    if chunks.len() == 0 {
        Seq::empty()
    } else {
        chunks[0] + concat_chunks(chunks.drop_first())
    }
}

/// Reading a stream that arrives in chunks: after each chunk is appended
/// to what was left in the buffer, `decode` is called until it returns no
/// packet; an error ends the reading. Every result in order.
pub open spec fn drain_chunks(c: BNetCodec, buf: Seq<u8>, chunks: Seq<Seq<u8>>) -> Seq<DecodeResultView>
    decreases chunks.len(),
{
    if chunks.len() == 0 {
        Seq::empty()
    } else {
        let (c1, s1, rs) = drain(c, buf + chunks[0]);
        if chunks.len() == 1 || rs.last() != waiting() {
            rs
        } else {
            rs.drop_last() + drain_chunks(c1, s1, chunks.drop_first())
        }
    }
}

/// How a byte stream is split into reads never changes what is decoded:
/// reading it chunk by chunk returns the same packets, and the same final
/// `Ok(None)` or error, as reading all of it at once. A partly received
/// frame stays buffered in the codec and the source buffer across reads.
pub proof fn lemma_decode_chunks(c: BNetCodec, buf: Seq<u8>, chunks: Seq<Seq<u8>>)
    requires
        chunks.len() > 0,
    ensures
        drain_chunks(c, buf, chunks) == drain(c, buf + concat_chunks(chunks)).2,
    decreases chunks.len(),
{
    let rest = chunks.drop_first();
    assert(buf + concat_chunks(chunks) =~= (buf + chunks[0]) + concat_chunks(rest));
    lemma_drain_append(c, buf + chunks[0], concat_chunks(rest));
    let (c1, s1, rs) = drain(c, buf + chunks[0]);
    if chunks.len() == 1 {
        assert(concat_chunks(rest) =~= Seq::<u8>::empty());
        assert(buf + chunks[0] + concat_chunks(rest) =~= buf + chunks[0]);
    } else if rs.last() == waiting() {
        lemma_decode_chunks(c1, s1, rest);
    }
}

} // verus!

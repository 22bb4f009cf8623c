use bytes::{Bytes, BytesMut};
use incite::frame::{BNetCodec, BNetPacket, FrameError, MissingField};
use incite::header::{decode_header, encode_header, header_encoded_len, Header};
use incite::wire::DecodeFault;

fn header(service_id: u32, method_id: Option<u32>, token: u32, size: Option<u32>) -> Header {
    Header { service_id, method_id, token, object_id: None, size, status: None }
}

/// Frames a packet the way `encode` does into an empty buffer.
fn frame(p: BNetPacket) -> BytesMut {
    let mut codec = BNetCodec::new();
    let mut dst = BytesMut::new();
    codec.encode(p, &mut dst).unwrap();
    dst
}

#[test]
fn header_encoding_exact_bytes() {
    let h = header(1, Some(2), 3, Some(4));
    let mut out = Vec::new();
    encode_header(&h, &mut out);
    assert_eq!(out, vec![0x08, 1, 0x10, 2, 0x18, 3, 0x28, 4]);
    assert_eq!(header_encoded_len(&h), 8);
}

#[test]
fn header_encoding_multibyte_varint_and_all_fields() {
    let h = Header { service_id: 300, method_id: None, token: 0, object_id: Some(1), size: None, status: Some(5) };
    let mut out = Vec::new();
    encode_header(&h, &mut out);
    // 300 = 0xAC 0x02
    assert_eq!(out, vec![0x08, 0xAC, 0x02, 0x18, 0, 0x20, 1, 0x30, 5]);
}

#[test]
fn header_roundtrip_concrete() {
    let h = Header { service_id: 254, method_id: Some(0), token: 0xffff_ffff, object_id: Some(u64::MAX), size: Some(70000), status: Some(9) };
    let mut out = Vec::new();
    encode_header(&h, &mut out);
    assert_eq!(decode_header(&out).unwrap(), h);
}

#[test]
fn header_decode_skips_unknown_fields_and_last_wins() {
    // tag 9 varint (unknown), tag 1 twice, tag 10 fixed32 (unknown), tag 11 bytes (unknown)
    let bytes = vec![0x48, 7, 0x08, 1, 0x08, 2, 0x55, 1, 2, 3, 4, 0x5A, 2, 9, 9, 0x18, 5];
    let h = decode_header(&bytes).unwrap();
    assert_eq!(h, header(2, None, 5, None));
}

#[test]
fn header_decode_errors() {
    assert_eq!(decode_header(&[0x08]).unwrap_err(), DecodeFault::InvalidVarint);
    assert_eq!(decode_header(&[0x0B, 1]).unwrap_err(), DecodeFault::InvalidWireTypeValue);
    assert_eq!(decode_header(&[0x00, 1]).unwrap_err(), DecodeFault::InvalidTag);
    // field 1 sent as fixed32
    assert_eq!(decode_header(&[0x0D, 1, 2, 3, 4]).unwrap_err(), DecodeFault::InvalidWireType);
    // unknown length-delimited field longer than the buffer
    assert_eq!(decode_header(&[0x5A, 5, 1]).unwrap_err(), DecodeFault::BufferUnderflow);
    // key above 32 bits
    assert_eq!(decode_header(&[0x80, 0x80, 0x80, 0x80, 0x10]).unwrap_err(), DecodeFault::InvalidKeyValue);
    // eleven-byte varint
    let long = [0x08, 0xFF, 0xFF, 0xFF, 0xFF, 0xFF, 0xFF, 0xFF, 0xFF, 0xFF, 0xFF, 0x01];
    assert_eq!(decode_header(&long).unwrap_err(), DecodeFault::InvalidVarint);
    assert_eq!(decode_header(&[]).unwrap(), Header::default());
}

#[test]
fn encode_writes_preamble_header_body() {
    let body = Bytes::from(vec![0xAA, 0xBB, 0xCC]);
    let out = frame(BNetPacket::new(header(0, Some(1), 7, Some(3)), body));
    assert_eq!(&out[..], &[0, 8, 0x08, 0, 0x10, 1, 0x18, 7, 0x28, 3, 0xAA, 0xBB, 0xCC][..]);
}

#[test]
fn encode_appends_after_destination_contents() {
    let mut codec = BNetCodec::new();
    let mut dst = BytesMut::from(&[1u8, 2][..]);
    let h = header(1, None, 0, None);
    codec.encode(BNetPacket::new(h, Bytes::from(vec![5])), &mut dst).unwrap();
    assert_eq!(&dst[..], &[1, 2, 0, 4, 0x08, 1, 0x18, 0, 5][..]);
}

#[test]
fn encode_into_empty_buffer_then_decode() {
    let h = header(2, Some(3), 4, Some(2));
    let mut dst = BytesMut::new();
    BNetCodec::new().encode(BNetPacket::new(h, Bytes::from(vec![8, 9])), &mut dst).unwrap();
    let mut codec = BNetCodec::new();
    let p = codec.decode(&mut dst).unwrap().unwrap();
    assert_eq!(p.header, h);
    assert_eq!(&p.body[..], &[8, 9][..]);
    assert!(dst.is_empty());
}

#[test]
fn encode_two_packets_then_decode_both() {
    let h1 = header(1, Some(1), 1, Some(1));
    let h2 = header(2, Some(2), 2, Some(0));
    let mut dst = BytesMut::new();
    let mut enc = BNetCodec::new();
    enc.encode(BNetPacket::new(h1, Bytes::from(vec![7])), &mut dst).unwrap();
    enc.encode(BNetPacket::new(h2, Bytes::new()), &mut dst).unwrap();
    let mut dec = BNetCodec::new();
    let p1 = dec.decode(&mut dst).unwrap().unwrap();
    let p2 = dec.decode(&mut dst).unwrap().unwrap();
    assert_eq!((p1.header, &p1.body[..]), (h1, &[7u8][..]));
    assert_eq!((p2.header, &p2.body[..]), (h2, &[][..]));
    assert!(dst.is_empty());
}

#[test]
fn decode_roundtrip() {
    let h = header(3, Some(4), 5, Some(2));
    let mut src = frame(BNetPacket::new(h, Bytes::from(vec![1, 2])));
    src.extend_from_slice(&[42]);
    let mut codec = BNetCodec::new();
    let p = codec.decode(&mut src).unwrap().unwrap();
    assert_eq!(p.header, h);
    assert_eq!(&p.body[..], &[1, 2][..]);
    assert_eq!(&src[..], &[42][..]);
    // the leftover byte is not a whole preamble
    assert!(codec.decode(&mut src).unwrap().is_none());
}

#[test]
fn decode_byte_by_byte() {
    let h = header(3, Some(4), 5, Some(3));
    let whole = frame(BNetPacket::new(h, Bytes::from(vec![7, 8, 9])));
    let mut codec = BNetCodec::new();
    let mut src = BytesMut::new();
    let mut got = None;
    for (i, b) in whole.iter().enumerate() {
        src.extend_from_slice(&[*b]);
        let r = codec.decode(&mut src).unwrap();
        if i + 1 < whole.len() {
            assert!(r.is_none());
        } else {
            got = r;
        }
    }
    let p = got.unwrap();
    assert_eq!(p.header, h);
    assert_eq!(&p.body[..], &[7, 8, 9][..]);
    assert!(src.is_empty());
}

#[test]
fn decode_two_frames_in_one_buffer() {
    let a = frame(BNetPacket::new(header(1, Some(1), 1, Some(1)), Bytes::from(vec![1])));
    let b = frame(BNetPacket::new(header(2, Some(2), 2, Some(0)), Bytes::new()));
    let mut src = BytesMut::new();
    src.extend_from_slice(&a);
    src.extend_from_slice(&b);
    let mut codec = BNetCodec::new();
    let p1 = codec.decode(&mut src).unwrap().unwrap();
    assert_eq!(p1.header.token, 1);
    let p2 = codec.decode(&mut src).unwrap().unwrap();
    assert_eq!(p2.header.token, 2);
    assert!(p2.body.is_empty());
    assert!(codec.decode(&mut src).unwrap().is_none());
}

#[test]
fn decode_missing_size() {
    let mut src = frame(BNetPacket::new(header(1, None, 1, None), Bytes::new()));
    let mut codec = BNetCodec::new();
    match codec.decode(&mut src) {
        Err(FrameError::MissingData(f)) => {
            assert_eq!(f, MissingField::Size);
            assert_eq!(f.name(), "Size");
        },
        other => panic!("unexpected {:?}", other.map(|o| o.is_some())),
    }
}

#[test]
fn decode_bad_header() {
    let mut src = BytesMut::from(&[0u8, 2, 0x08, 0x80][..]);
    let mut codec = BNetCodec::new();
    match codec.decode(&mut src) {
        Err(FrameError::ProtoDecode(DecodeFault::InvalidVarint)) => {},
        other => panic!("unexpected {:?}", other.map(|o| o.is_some())),
    }
    assert!(src.is_empty());
}

#[test]
fn decode_waits_for_preamble_and_header() {
    let mut codec = BNetCodec::new();
    let mut src = BytesMut::from(&[0u8][..]);
    assert!(codec.decode(&mut src).unwrap().is_none());
    assert_eq!(src.len(), 1);
    src.extend_from_slice(&[4, 0x08]);
    assert!(codec.decode(&mut src).unwrap().is_none());
    // the preamble was consumed, the partial header stays
    assert_eq!(&src[..], &[0x08][..]);
}

#[test]
fn decode_stream_of_frames() {
    let mut src = BytesMut::new();
    for t in 0..5u32 {
        let body: Vec<u8> = (0..t as u8).collect();
        src.extend_from_slice(&frame(BNetPacket::new(header(1, Some(1), t, Some(t)), Bytes::from(body))));
    }
    src.extend_from_slice(&[0xEE]);
    let mut codec = BNetCodec::new();
    for t in 0..5u32 {
        let p = codec.decode(&mut src).unwrap().unwrap();
        assert_eq!(p.header.token, t);
        assert_eq!(p.body.len(), t as usize);
    }
    assert_eq!(&src[..], &[0xEE][..]);
}

/// Every result of reading `stream` in the given chunks: after each chunk,
/// `decode` until it returns nothing; an error ends the reading.
fn read_in_chunks(stream: &[u8], cuts: &[usize]) -> Vec<Result<Option<(Header, Vec<u8>)>, FrameError>> {
    let mut codec = BNetCodec::new();
    let mut src = BytesMut::new();
    let mut results = Vec::new();
    let mut start = 0;
    let mut ends: Vec<usize> = cuts.to_vec();
    ends.push(stream.len());
    for (n, end) in ends.iter().enumerate() {
        src.extend_from_slice(&stream[start..*end]);
        start = *end;
        loop {
            match codec.decode(&mut src) {
                Ok(Some(p)) => results.push(Ok(Some((p.header, p.body.to_vec())))),
                Ok(None) => {
                    if n + 1 == ends.len() {
                        results.push(Ok(None));
                    }
                    break;
                }
                Err(e) => {
                    results.push(Err(e));
                    return results;
                }
            }
        }
    }
    results
}

#[test]
fn decode_any_split_of_a_stream() {
    let mut stream = Vec::new();
    stream.extend_from_slice(&frame(BNetPacket::new(header(1, Some(2), 3, Some(3)), Bytes::from(vec![7, 8, 9]))));
    stream.extend_from_slice(&frame(BNetPacket::new(header(4, None, 5, Some(0)), Bytes::new())));
    // A frame whose header has no size ends the stream with an error.
    stream.extend_from_slice(&frame(BNetPacket::new(header(6, None, 7, None), Bytes::new())));
    stream.extend_from_slice(&[1, 2, 3]);
    let whole = read_in_chunks(&stream, &[]);
    assert_eq!(whole.len(), 3);
    assert_eq!(whole[0], Ok(Some((header(1, Some(2), 3, Some(3)), vec![7, 8, 9]))));
    assert_eq!(whole[1], Ok(Some((header(4, None, 5, Some(0)), vec![]))));
    assert_eq!(whole[2], Err(FrameError::MissingData(MissingField::Size)));
    for a in 0..=stream.len() {
        for b in a..=stream.len() {
            assert_eq!(read_in_chunks(&stream, &[a, b]), whole);
        }
    }
    let every_byte: Vec<usize> = (1..stream.len()).collect();
    assert_eq!(read_in_chunks(&stream, &every_byte), whole);
}

//! The frame codec: a message is carried as a four-byte big-endian header —
//! two compression-tag bits and a 30-bit payload length — followed by the
//! payload, which is the message's wire form, deflate-compressed when it is
//! strictly larger than [`COMPRESSION_LIMIT`] bytes.
use vstd::prelude::*;
use vstd::slice::{slice_subrange, slice_to_vec};

use crate::types::{CommandRequest, CommandResponse, KvError, RequestModel, ResponseModel};
use crate::wire::{
    deserialize_request, deserialize_response, ser_request, ser_response, serialize_request,
    serialize_response, wf_request, wf_response,
};

verus! {

/// Number of bytes in a frame header.
pub const LEN_LEN: usize = 4;

/// A payload length must fit in the low 30 bits of the header, capping a
/// frame at one gibibyte.
pub const MAX_FRAME: u32 = 0x4000_0000;

/// Payloads strictly larger than this many bytes are compressed, so that
/// small messages stay under a common link MTU and are never penalized.
pub const COMPRESSION_LIMIT: usize = 1436;

/// The two highest header bits, set when the payload is compressed.
pub const COMPRESSION_BIT: u32 = 0xc000_0000;

/// Splits a frame header into the payload length (its low 30 bits) and the
/// compression flag (its two highest bits).
pub fn decode_header(header: u32) -> (r: (u32, bool))
    ensures
        r.0 == header & 0x3fff_ffff,
        r.1 == (header & 0xc000_0000 == 0xc000_0000),
{
    let len = header & 0x3fff_ffff;
    let compressed = header & COMPRESSION_BIT == COMPRESSION_BIT;
    (len, compressed)
}

/// The four bytes of a header value, most significant first.
pub open spec fn spec_u32_to_be_bytes(x: u32) -> Seq<u8> {
    seq![
        ((x >> 24) & 0xff) as u8,
        ((x >> 16) & 0xff) as u8,
        ((x >> 8) & 0xff) as u8,
        (x & 0xff) as u8,
    ]
}

/// The header value read from four bytes, most significant first.
pub open spec fn spec_u32_from_be_bytes(s: Seq<u8>) -> u32
    recommends
        s.len() == 4,
{
    ((s[0] as u32) << 24) | ((s[1] as u32) << 16) | ((s[2] as u32) << 8) | (s[3] as u32)
}

pub proof fn lemma_u32_be_roundtrip(x: u32)
    ensures
        spec_u32_from_be_bytes(spec_u32_to_be_bytes(x)) == x,
        spec_u32_to_be_bytes(x).len() == 4,
{
    assert((((((x >> 24) & 0xff) as u8) as u32) << 24) | (((((x >> 16) & 0xff) as u8) as u32)
        << 16) | (((((x >> 8) & 0xff) as u8) as u32) << 8) | (((x & 0xff) as u8) as u32) == x)
        by (bit_vector);
}

/// How a header's two tag bits and 30 length bits interact, for lengths under
/// the cap.
pub proof fn lemma_header_bits(l: u32)
    requires
        l < 0x4000_0000,
    ensures
        l & 0x3fff_ffff == l,
        (l | 0xc000_0000) & 0x3fff_ffff == l,
        l & 0xc000_0000 != 0xc000_0000,
        (l | 0xc000_0000) & 0xc000_0000 == 0xc000_0000,
{
    assert(l < 0x4000_0000 ==> (l & 0x3fff_ffff == l && (l | 0xc000_0000) & 0x3fff_ffff == l && l
        & 0xc000_0000 != 0xc000_0000 && (l | 0xc000_0000) & 0xc000_0000 == 0xc000_0000))
        by (bit_vector);
}

fn u32_to_be_vec(x: u32) -> (r: Vec<u8>)
    ensures
        r@ == spec_u32_to_be_bytes(x),
{
    let mut v: Vec<u8> = Vec::new();
    v.push(((x >> 24) & 0xff) as u8);
    v.push(((x >> 16) & 0xff) as u8);
    v.push(((x >> 8) & 0xff) as u8);
    v.push((x & 0xff) as u8);
    proof {
        assert(v@ =~= spec_u32_to_be_bytes(x));
    }
    v
}

fn read_u32_be(buf: &Vec<u8>) -> (r: u32)
    requires
        buf@.len() >= 4,
    ensures
        r == spec_u32_from_be_bytes(buf@.take(4)),
{
    let b0 = buf[0];
    let b1 = buf[1];
    let b2 = buf[2];
    let b3 = buf[3];
    let r = ((b0 as u32) << 24) | ((b1 as u32) << 16) | ((b2 as u32) << 8) | (b3 as u32);
    proof {
        assert(buf@.take(4)[0] == buf@[0]);
        assert(buf@.take(4)[1] == buf@[1]);
        assert(buf@.take(4)[2] == buf@[2]);
        assert(buf@.take(4)[3] == buf@[3]);
    }
    r
}

/// What flate2's deflate encoder produces, at the default level, for the
/// given input: a function of the input bytes alone.
pub uninterp spec fn deflate_of(data: Seq<u8>) -> Seq<u8>;

/// Relies on flate2's DeflateEncoder at the default compression level: the
/// output depends on the input bytes alone, and writing into a Vec cannot
/// fail, so the encoder's errors cannot occur.
#[verifier::external_body]
fn deflate_compress(data: &Vec<u8>) -> (r: Vec<u8>)
    ensures
        r@ == deflate_of(data@),
{
    let mut enc = flate2::write::DeflateEncoder::new(Vec::new(), flate2::Compression::default());
    std::io::Write::write_all(&mut enc, data.as_slice()).expect("writing to a Vec cannot fail");
    enc.finish().expect("writing to a Vec cannot fail")
}

/// Relies on flate2's DeflateDecoder: reading a stream that DeflateEncoder
/// produced yields exactly the bytes that were encoded.
#[verifier::external_body]
fn deflate_decompress(data: &Vec<u8>) -> (r: Result<Vec<u8>, KvError>)
    ensures
        forall|s: Seq<u8>| data@ == deflate_of(s) ==> r is Ok && r->Ok_0@ == s,
{
    let mut dec = flate2::read::DeflateDecoder::new(data.as_slice());
    let mut out = Vec::new();
    match std::io::Read::read_to_end(&mut dec, &mut out) {
        Ok(_) => Ok(out),
        Err(_) => Err(KvError::DecodeError),
    }
}

/// When `frame` is the frame that carries `payload`: a header holding the
/// length of what follows and the compression tag, then the payload itself,
/// compressed exactly when it is larger than [`COMPRESSION_LIMIT`].
pub open spec fn frame_wraps(payload: Seq<u8>, frame: Seq<u8>) -> bool {
    &&& payload.len() < MAX_FRAME
    &&& if payload.len() <= COMPRESSION_LIMIT {
        frame == spec_u32_to_be_bytes(payload.len() as u32) + payload
    } else {
        &&& deflate_of(payload).len() < MAX_FRAME
        &&& frame == spec_u32_to_be_bytes((deflate_of(payload).len() as u32) | COMPRESSION_BIT)
            + deflate_of(payload)
    }
}

/// Compression transparency, read off a frame: the tag bits are set exactly
/// for payloads strictly above the limit, and what follows the header is the
/// payload itself below it, its compressed form above it.
pub proof fn lemma_compression_tag(payload: Seq<u8>, frame: Seq<u8>)
    requires
        frame_wraps(payload, frame),
    ensures
        payload.len() > COMPRESSION_LIMIT <==> spec_u32_from_be_bytes(frame.take(4))
            & COMPRESSION_BIT == COMPRESSION_BIT,
        payload.len() <= COMPRESSION_LIMIT ==> frame.skip(4) == payload,
        payload.len() > COMPRESSION_LIMIT ==> frame.skip(4) == deflate_of(payload),
{
    if payload.len() <= COMPRESSION_LIMIT {
        let l = payload.len() as u32;
        lemma_u32_be_roundtrip(l);
        lemma_header_bits(l);
        assert(frame.take(4) =~= spec_u32_to_be_bytes(l));
        assert(frame.skip(4) =~= payload);
    } else {
        let l = deflate_of(payload).len() as u32;
        lemma_u32_be_roundtrip(l | COMPRESSION_BIT);
        lemma_header_bits(l);
        assert(frame.take(4) =~= spec_u32_to_be_bytes(l | COMPRESSION_BIT));
        assert(frame.skip(4) =~= deflate_of(payload));
    }
}

/// Wraps a payload in a frame. Fails with FrameTooLarge exactly when the
/// payload — or, above the compression limit, its compressed form — does not
/// fit the 30-bit length field.
pub fn encode_frame_bytes(payload: &Vec<u8>) -> (r: Result<Vec<u8>, KvError>)
    ensures
        payload@.len() >= MAX_FRAME ==> (r matches Err(e) && e is FrameTooLarge),
        payload@.len() <= COMPRESSION_LIMIT ==> (r matches Ok(f) && frame_wraps(payload@, f@)),
        COMPRESSION_LIMIT < payload@.len() < MAX_FRAME ==> (if deflate_of(payload@).len()
            < MAX_FRAME {
            r matches Ok(f) && frame_wraps(payload@, f@)
        } else {
            r matches Err(e) && e is FrameTooLarge
        }),
        r matches Ok(f) ==> frame_wraps(payload@, f@),
        r matches Err(e) ==> e is FrameTooLarge,
{
    let n = payload.len();
    if n >= MAX_FRAME as usize {
        return Err(KvError::FrameTooLarge);
    }
    if n <= COMPRESSION_LIMIT {
        let mut out = u32_to_be_vec(n as u32);
        out.extend_from_slice(payload.as_slice());
        proof {
            assert(out@ =~= spec_u32_to_be_bytes(payload@.len() as u32) + payload@);
        }
        Ok(out)
    } else {
        let compressed = deflate_compress(payload);
        let m = compressed.len();
        if m >= MAX_FRAME as usize {
            return Err(KvError::FrameTooLarge);
        }
        let header: u32 = (m as u32) | COMPRESSION_BIT;
        let mut out = u32_to_be_vec(header);
        out.extend_from_slice(compressed.as_slice());
        proof {
            assert(out@ =~= spec_u32_to_be_bytes((deflate_of(payload@).len() as u32)
                | COMPRESSION_BIT) + deflate_of(payload@));
        }
        Ok(out)
    }
}

/// Unwraps one frame from the front of the buffer, returning the payload and
/// how many bytes the frame occupied. Whenever some payload's frame stands at
/// the front of the buffer, that payload is returned.
pub fn decode_frame_bytes(buf: &Vec<u8>) -> (r: Result<(Vec<u8>, usize), KvError>)
    ensures
        forall|p: Seq<u8>, n: int|
            0 <= n <= buf@.len() && frame_wraps(p, buf@.take(n)) ==> (r matches Ok(q) && q.0@ == p
                && q.1 == n),
        r matches Ok(q) ==> 4 <= q.1 <= buf@.len(),
        r matches Err(e) ==> e is DecodeError,
{
    if buf.len() < 4 {
        proof {
            assert forall|p: Seq<u8>, n: int|
                0 <= n <= buf@.len() && frame_wraps(p, buf@.take(n)) implies false by {
                assert(buf@.take(n).len() == n);
            }
        }
        return Err(KvError::DecodeError);
    }
    let header = read_u32_be(buf);
    let (len32, compressed) = decode_header(header);
    let len = len32 as usize;
    if buf.len() - 4 < len {
        proof {
            assert forall|p: Seq<u8>, n: int|
                0 <= n <= buf@.len() && frame_wraps(p, buf@.take(n)) implies false by {
                lemma_frame_header(buf@, p, n, header);
            }
        }
        return Err(KvError::DecodeError);
    }
    let payload_bytes = slice_to_vec(slice_subrange(buf.as_slice(), 4, 4 + len));
    proof {
        assert(payload_bytes@ =~= buf@.subrange(4, 4 + len as int));
    }
    if compressed {
        match deflate_decompress(&payload_bytes) {
            Ok(out) => {
                proof {
                    assert forall|p: Seq<u8>, n: int|
                        0 <= n <= buf@.len() && frame_wraps(p, buf@.take(n)) implies out@ == p && n
                        == 4 + len by {
                        lemma_frame_header(buf@, p, n, header);
                        assert(p.len() > COMPRESSION_LIMIT);
                        assert(n == 4 + len);
                        assert((spec_u32_to_be_bytes((deflate_of(p).len() as u32)
                            | COMPRESSION_BIT) + deflate_of(p)).skip(4) =~= deflate_of(p));
                        assert(buf@.take(n).skip(4) =~= buf@.subrange(4, 4 + len as int));
                        assert(payload_bytes@ == deflate_of(p));
                    }
                }
                Ok((out, 4 + len))
            },
            Err(_) => {
                proof {
                    assert forall|p: Seq<u8>, n: int|
                        0 <= n <= buf@.len() && frame_wraps(p, buf@.take(n)) implies false by {
                        lemma_frame_header(buf@, p, n, header);
                        assert(p.len() > COMPRESSION_LIMIT);
                        assert(n == 4 + len);
                        assert((spec_u32_to_be_bytes((deflate_of(p).len() as u32)
                            | COMPRESSION_BIT) + deflate_of(p)).skip(4) =~= deflate_of(p));
                        assert(buf@.take(n).skip(4) =~= buf@.subrange(4, 4 + len as int));
                        assert(payload_bytes@ == deflate_of(p));
                    }
                }
                Err(KvError::DecodeError)
            },
        }
    } else {
        proof {
            assert forall|p: Seq<u8>, n: int|
                0 <= n <= buf@.len() && frame_wraps(p, buf@.take(n)) implies payload_bytes@ == p
                && n == 4 + len by {
                lemma_frame_header(buf@, p, n, header);
                assert(p.len() <= COMPRESSION_LIMIT);
                assert(n == 4 + len);
                assert((spec_u32_to_be_bytes(p.len() as u32) + p).skip(4) =~= p);
                assert(buf@.take(n).skip(4) =~= buf@.subrange(4, 4 + len as int));
            }
        }
        Ok((payload_bytes, 4 + len))
    }
}

/// What a valid frame at the front of `b` forces about its header: the header
/// value determines the compression tag and the extent of the frame.
proof fn lemma_frame_header(b: Seq<u8>, p: Seq<u8>, n: int, header: u32)
    requires
        b.len() >= 4,
        0 <= n <= b.len(),
        frame_wraps(p, b.take(n)),
        header == spec_u32_from_be_bytes(b.take(4)),
    ensures
        (header & 0xc000_0000 == 0xc000_0000) ==> p.len() > COMPRESSION_LIMIT,
        (header & 0xc000_0000 != 0xc000_0000) ==> p.len() <= COMPRESSION_LIMIT,
        p.len() <= COMPRESSION_LIMIT ==> (header & 0x3fff_ffff) == p.len() && n == 4 + p.len(),
        p.len() > COMPRESSION_LIMIT ==> (header & 0x3fff_ffff) == deflate_of(p).len() && n == 4
            + deflate_of(p).len(),
{
    if p.len() <= COMPRESSION_LIMIT {
        let l = p.len() as u32;
        assert(b.take(n).take(4) =~= b.take(4));
        assert(b.take(4) =~= spec_u32_to_be_bytes(l));
        lemma_u32_be_roundtrip(l);
        lemma_header_bits(l);
        assert(b.take(n).len() == n);
    } else {
        let l = deflate_of(p).len() as u32;
        assert(b.take(n).take(4) =~= b.take(4));
        assert(b.take(4) =~= spec_u32_to_be_bytes(l | COMPRESSION_BIT));
        lemma_u32_be_roundtrip(l | COMPRESSION_BIT);
        lemma_header_bits(l);
        assert(b.take(n).len() == n);
    }
}

impl CommandRequest {
    /// Encodes this request as one frame.
    pub fn encode_frame(&self) -> (r: Result<Vec<u8>, KvError>)
        ensures
            r matches Ok(f) ==> frame_wraps(ser_request(self@), f@) && wf_request(self@),
            ser_request(self@).len() <= COMPRESSION_LIMIT ==> r is Ok,
            ser_request(self@).len() >= MAX_FRAME ==> (r matches Err(e) && e is FrameTooLarge),
            COMPRESSION_LIMIT < ser_request(self@).len() < MAX_FRAME ==> (r is Ok <==> deflate_of(
                ser_request(self@),
            ).len() < MAX_FRAME),
            r matches Err(e) ==> e is FrameTooLarge,
    {
        let payload = serialize_request(self);
        encode_frame_bytes(&payload)
    }

    /// Decodes one frame from the front of the buffer as a request. Whenever
    /// the buffer starts with a frame that [`Self::encode_frame`] produced
    /// for some request, that request comes back.
    pub fn decode_frame(buf: &Vec<u8>) -> (r: Result<(CommandRequest, usize), KvError>)
        ensures
            forall|m: RequestModel, n: int|
                0 <= n <= buf@.len() && wf_request(m) && frame_wraps(ser_request(m), buf@.take(n))
                    ==> (r matches Ok(q) && q.0@ == m && q.1 == n),
            r matches Err(e) ==> e is DecodeError,
    {
        let (payload, used) = match decode_frame_bytes(buf) {
            Ok(v) => v,
            Err(e) => {
                return Err(e);
            },
        };
        match deserialize_request(&payload) {
            Ok(m) => {
                proof {
                    assert forall|mm: RequestModel, n: int|
                        0 <= n <= buf@.len() && wf_request(mm) && frame_wraps(
                            ser_request(mm),
                            buf@.take(n),
                        ) implies m@ == mm && used == n by {
                        crate::wire::lemma_request_roundtrip(mm, Seq::empty());
                        assert(ser_request(mm) + Seq::<u8>::empty() =~= ser_request(mm));
                    }
                }
                Ok((m, used))
            },
            Err(e) => {
                proof {
                    assert forall|mm: RequestModel, n: int|
                        0 <= n <= buf@.len() && wf_request(mm) && frame_wraps(
                            ser_request(mm),
                            buf@.take(n),
                        ) implies false by {
                        crate::wire::lemma_request_roundtrip(mm, Seq::empty());
                        assert(ser_request(mm) + Seq::<u8>::empty() =~= ser_request(mm));
                    }
                }
                Err(e)
            },
        }
    }
}

impl CommandResponse {
    /// Encodes this response as one frame.
    pub fn encode_frame(&self) -> (r: Result<Vec<u8>, KvError>)
        ensures
            r matches Ok(f) ==> frame_wraps(ser_response(self@), f@) && wf_response(self@),
            ser_response(self@).len() <= COMPRESSION_LIMIT ==> r is Ok,
            ser_response(self@).len() >= MAX_FRAME ==> (r matches Err(e) && e is FrameTooLarge),
            COMPRESSION_LIMIT < ser_response(self@).len() < MAX_FRAME ==> (r is Ok <==> deflate_of(
                ser_response(self@),
            ).len() < MAX_FRAME),
            r matches Err(e) ==> e is FrameTooLarge,
    {
        let payload = serialize_response(self);
        encode_frame_bytes(&payload)
    }

    /// Decodes one frame from the front of the buffer as a response. Whenever
    /// the buffer starts with a frame that [`Self::encode_frame`] produced
    /// for some response, that response comes back.
    pub fn decode_frame(buf: &Vec<u8>) -> (r: Result<(CommandResponse, usize), KvError>)
        ensures
            forall|m: ResponseModel, n: int|
                0 <= n <= buf@.len() && wf_response(m) && frame_wraps(
                    ser_response(m),
                    buf@.take(n),
                ) ==> (r matches Ok(q) && q.0@ == m && q.1 == n),
            r matches Err(e) ==> e is DecodeError,
    {
        let (payload, used) = match decode_frame_bytes(buf) {
            Ok(v) => v,
            Err(e) => {
                return Err(e);
            },
        };
        match deserialize_response(&payload) {
            Ok(m) => {
                proof {
                    assert forall|mm: ResponseModel, n: int|
                        0 <= n <= buf@.len() && wf_response(mm) && frame_wraps(
                            ser_response(mm),
                            buf@.take(n),
                        ) implies m@ == mm && used == n by {
                        crate::wire::lemma_response_roundtrip(mm, Seq::empty());
                        assert(ser_response(mm) + Seq::<u8>::empty() =~= ser_response(mm));
                    }
                }
                Ok((m, used))
            },
            Err(e) => {
                proof {
                    assert forall|mm: ResponseModel, n: int|
                        0 <= n <= buf@.len() && wf_response(mm) && frame_wraps(
                            ser_response(mm),
                            buf@.take(n),
                        ) implies false by {
                        crate::wire::lemma_response_roundtrip(mm, Seq::empty());
                        assert(ser_response(mm) + Seq::<u8>::empty() =~= ser_response(mm));
                    }
                }
                Err(e)
            },
        }
    }
}

} // verus!

//! One frame per connection: a 4-byte big-endian length, then that many bytes
//! of encoded message.
use crate::message::{encoding, representable, CodecError, Message, MessageView};
use vstd::prelude::*;
use vstd::slice::*;

verus! {

/// The largest payload a frame header can describe.
pub const MAX_PAYLOAD: u64 = 4294967295;

/// The number that a 4-byte big-endian header holds.
pub open spec fn header_value(h: Seq<u8>) -> int {
    h[0] as int * 16777216 + h[1] as int * 65536 + h[2] as int * 256 + h[3] as int
}

/// The 4-byte big-endian header for a payload of `len` bytes.
pub open spec fn header_bytes(len: u32) -> Seq<u8> {
    seq![
        (len / 16777216) as u8,
        (len / 65536 % 256) as u8,
        (len / 256 % 256) as u8,
        (len % 256) as u8,
    ]
}

/// The frame that carries `payload`.
pub open spec fn frame_of(payload: Seq<u8>) -> Seq<u8> {
    header_bytes(payload.len() as u32) + payload
}

/// The length a frame that starts with `b` declares for its payload.
pub open spec fn declared_len(b: Seq<u8>) -> int {
    header_value(b.take(4))
}

proof fn lemma_header_round_trip(len: u32)
    ensures
        header_bytes(len).len() == 4,
        header_value(header_bytes(len)) == len,
{
    let h = header_bytes(len);
    assert(h[0] as int == len / 16777216);
    assert(h[1] as int == len / 65536 % 256);
    assert(h[2] as int == len / 256 % 256);
    assert(h[3] as int == len % 256);
    assert(len / 16777216 * 16777216 + len / 65536 % 256 * 65536 + len / 256 % 256 * 256 + len
        % 256 == len) by (nonlinear_arith);
}

/// The payload length that a frame header declares.
pub fn frame_length(header: &[u8]) -> (r: u32)
    requires
        header@.len() == 4,
    ensures
        r as int == header_value(header@),
{
    let b0 = header[0] as u32;
    let b1 = header[1] as u32;
    let b2 = header[2] as u32;
    let b3 = header[3] as u32;
    b0 * 16777216 + b1 * 65536 + b2 * 256 + b3
}

/// The frame that carries `payload`; `Unrepresentable` when the payload is
/// longer than a header can describe.
pub fn frame(payload: &[u8]) -> (r: Result<Vec<u8>, CodecError>)
    ensures
        match r {
            Ok(v) => payload@.len() <= MAX_PAYLOAD && v@ == frame_of(payload@),
            Err(e) => payload@.len() > MAX_PAYLOAD && e == CodecError::Unrepresentable,
        },
{
    let n: usize = payload.len();
    if n as u64 > MAX_PAYLOAD {
        return Err(CodecError::Unrepresentable);
    }
    let len = n as u32;
    let mut out: Vec<u8> = Vec::new();
    out.push((len / 16777216) as u8);
    out.push((len / 65536 % 256) as u8);
    out.push((len / 256 % 256) as u8);
    out.push((len % 256) as u8);
    let mut rest = slice_to_vec(payload);
    out.append(&mut rest);
    assert(out@ =~= frame_of(payload@));
    Ok(out)
}

/// Encodes `msg` and frames it, ready to be written to a connection.
pub fn frame_message(msg: &Message) -> (r: Result<Vec<u8>, CodecError>)
    ensures
        match r {
            Ok(v) => v@ == frame_of(encoding(msg@)),
            Err(e) => encoding(msg@).len() > MAX_PAYLOAD && e == CodecError::Unrepresentable,
        },
{
    let payload = match msg.encode() {
        Ok(p) => p,
        Err(e) => return Err(e),
    };
    frame(payload.as_slice())
}

/// Reads the message out of a whole frame. `Truncated` when `bytes` are
/// shorter than the header or than the length it declares; `Malformed` when
/// they are longer, or the payload is not a message.
pub fn unframe(bytes: &[u8]) -> (r: Result<Message, CodecError>)
    ensures
        r == Err::<Message, CodecError>(CodecError::Truncated) <==> (bytes@.len() < 4
            || bytes@.len() < 4 + declared_len(bytes@)),
        r matches Ok(m) ==> bytes@ == frame_of(encoding(m@)),
        r is Err ==> forall|m: MessageView|
            representable(m) && encoding(m).len() <= MAX_PAYLOAD ==> bytes@ != frame_of(
                encoding(m),
            ),
{
    let n: usize = bytes.len();
    if n < 4 {
        proof { lemma_not_a_frame(bytes@) }
        return Err(CodecError::Truncated);
    }
    let header = slice_subrange(bytes, 0, 4);
    assert(header@ =~= bytes@.take(4));
    let len = frame_length(header);
    if ((n - 4) as u64) < len as u64 {
        proof { lemma_not_a_frame(bytes@) }
        return Err(CodecError::Truncated);
    }
    if ((n - 4) as u64) > len as u64 {
        proof { lemma_not_a_frame(bytes@) }
        return Err(CodecError::Malformed);
    }
    let payload = slice_subrange(bytes, 4, n);
    let r = Message::decode(payload);
    proof {
        assert(bytes@ =~= bytes@.take(4) + payload@);
        lemma_frame_parts(bytes@);
        if r is Err {
            assert forall|m: MessageView|
                representable(m) && encoding(m).len() <= MAX_PAYLOAD implies bytes@ != frame_of(
                encoding(m),
            ) by {
                if bytes@ == frame_of(encoding(m)) {
                    assert(frame_of(encoding(m)).skip(4) =~= encoding(m));
                    assert(bytes@.skip(4) =~= payload@);
                }
            }
        }
    }
    r
}

proof fn lemma_frame_parts(b: Seq<u8>)
    requires
        b.len() >= 4,
        b.len() == 4 + declared_len(b),
    ensures
        b == frame_of(b.skip(4)),
{
    let len = (b.len() - 4) as u32;
    lemma_header_round_trip(len);
    let h = b.take(4);
    let g = header_bytes(len);
    assert(h[0] as int == len / 16777216) by (nonlinear_arith)
        requires len as int == h[0] as int * 16777216 + h[1] as int * 65536 + h[2] as int * 256 + h[3] as int,
            h[0] < 256, h[1] < 256, h[2] < 256, h[3] < 256;
    assert(h[1] as int == len / 65536 % 256) by (nonlinear_arith)
        requires len as int == h[0] as int * 16777216 + h[1] as int * 65536 + h[2] as int * 256 + h[3] as int,
            h[0] < 256, h[1] < 256, h[2] < 256, h[3] < 256;
    assert(h[2] as int == len / 256 % 256) by (nonlinear_arith)
        requires len as int == h[0] as int * 16777216 + h[1] as int * 65536 + h[2] as int * 256 + h[3] as int,
            h[0] < 256, h[1] < 256, h[2] < 256, h[3] < 256;
    assert(h[3] as int == len % 256) by (nonlinear_arith)
        requires len as int == h[0] as int * 16777216 + h[1] as int * 65536 + h[2] as int * 256 + h[3] as int,
            h[0] < 256, h[1] < 256, h[2] < 256, h[3] < 256;
    assert(h =~= g);
    assert(b =~= g + b.skip(4));
}

proof fn lemma_not_a_frame(b: Seq<u8>)
    requires
        b.len() < 4 || b.len() != 4 + declared_len(b),
    ensures
        forall|p: Seq<u8>| p.len() <= MAX_PAYLOAD ==> b != #[trigger] frame_of(p),
{
    assert forall|p: Seq<u8>| p.len() <= MAX_PAYLOAD implies b != #[trigger] frame_of(p) by {
        if b == frame_of(p) {
            lemma_header_round_trip(p.len() as u32);
            assert(b.take(4) =~= header_bytes(p.len() as u32));
        }
    }
}

} // verus!

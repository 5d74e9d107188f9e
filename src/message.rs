//! The closed set of messages exchanged between peers and their byte layout.
//!
//! Layout: a little-endian `u32` variant tag, then the fields in order. Ids are
//! 16 little-endian bytes, integers 8 little-endian bytes, and strings and byte
//! strings an 8-byte length followed by the (UTF-8) bytes.
use vstd::bytes::*;
use vstd::prelude::*;
use vstd::slice::*;
use vstd::utf8::*;

verus! {

/// Why a message could not be encoded, framed or decoded.
#[derive(Debug, Clone, Copy, PartialEq, Eq, Structural)]
pub enum CodecError {
    /// The value does not fit the wire format (a payload over `u32::MAX` bytes).
    Unrepresentable,
    /// Fewer bytes than the frame header declares.
    Truncated,
    /// The bytes are not the encoding of any message.
    Malformed,
}

/// One message, sent as one frame over one connection.
#[derive(Debug, PartialEq, Eq)]
pub enum Message {
    Text { content: String },
    FileOffer { name: String, size: u64, id: u128 },
    FileAccept { id: u128 },
    FileReject { id: u128 },
    FileChunk { id: u128, offset: u64, data: Vec<u8> },
    FileComplete { id: u128 },
}

/// The mathematical value of a [`Message`].
pub enum MessageView {
    Text { content: Seq<char> },
    FileOffer { name: Seq<char>, size: u64, id: u128 },
    FileAccept { id: u128 },
    FileReject { id: u128 },
    FileChunk { id: u128, offset: u64, data: Seq<u8> },
    FileComplete { id: u128 },
}

impl View for Message {
    type V = MessageView;

    open spec fn view(&self) -> MessageView {
        match self {
            Message::Text { content } => MessageView::Text { content: content@ },
            Message::FileOffer { name, size, id } => MessageView::FileOffer {
                name: name@,
                size: *size,
                id: *id,
            },
            Message::FileAccept { id } => MessageView::FileAccept { id: *id },
            Message::FileReject { id } => MessageView::FileReject { id: *id },
            Message::FileChunk { id, offset, data } => MessageView::FileChunk {
                id: *id,
                offset: *offset,
                data: data@,
            },
            Message::FileComplete { id } => MessageView::FileComplete { id: *id },
        }
    }
}

pub open spec fn fits_u64(n: nat) -> bool {
    n <= u64::MAX
}

/// A message value whose variable-length fields can be described by an
/// 8-byte length; every message held in memory is one.
pub open spec fn representable(m: MessageView) -> bool {
    match m {
        MessageView::Text { content } => fits_u64(encode_utf8(content).len()),
        MessageView::FileOffer { name, .. } => fits_u64(encode_utf8(name).len()),
        MessageView::FileChunk { data, .. } => fits_u64(data.len()),
        _ => true,
    }
}

pub open spec fn tag_field(t: u32) -> Seq<u8> {
    spec_u32_to_le_bytes(t)
}

pub open spec fn u64_field(x: u64) -> Seq<u8> {
    spec_u64_to_le_bytes(x)
}

pub open spec fn id_field(id: u128) -> Seq<u8> {
    spec_u128_to_le_bytes(id)
}

pub open spec fn bytes_field(b: Seq<u8>) -> Seq<u8> {
    spec_u64_to_le_bytes(b.len() as u64) + b
}

pub open spec fn text_field(s: Seq<char>) -> Seq<u8> {
    bytes_field(encode_utf8(s))
}

/// The bytes that encode `m`.
pub open spec fn encoding(m: MessageView) -> Seq<u8> {
    match m {
        MessageView::Text { content } => tag_field(0) + text_field(content),
        MessageView::FileOffer { name, size, id } => tag_field(1) + text_field(name) + u64_field(
            size,
        ) + id_field(id),
        MessageView::FileAccept { id } => tag_field(2) + id_field(id),
        MessageView::FileReject { id } => tag_field(3) + id_field(id),
        MessageView::FileChunk { id, offset, data } => tag_field(4) + id_field(id) + u64_field(
            offset,
        ) + bytes_field(data),
        MessageView::FileComplete { id } => tag_field(5) + id_field(id),
    }
}

// A reader of the layout, one field at a time: each returns the field and the
// bytes after it.
spec fn take_u32(b: Seq<u8>) -> Option<(u32, Seq<u8>)> {
    if b.len() >= 4 {
        Some((spec_u32_from_le_bytes(b.take(4)), b.skip(4)))
    } else {
        None
    }
}

spec fn take_u64(b: Seq<u8>) -> Option<(u64, Seq<u8>)> {
    if b.len() >= 8 {
        Some((spec_u64_from_le_bytes(b.take(8)), b.skip(8)))
    } else {
        None
    }
}

spec fn take_u128(b: Seq<u8>) -> Option<(u128, Seq<u8>)> {
    if b.len() >= 16 {
        Some((spec_u128_from_le_bytes(b.take(16)), b.skip(16)))
    } else {
        None
    }
}

spec fn take_bytes(b: Seq<u8>) -> Option<(Seq<u8>, Seq<u8>)> {
    match take_u64(b) {
        Some((n, r)) => if n <= r.len() {
            Some((r.take(n as int), r.skip(n as int)))
        } else {
            None
        },
        None => None,
    }
}

spec fn take_text(b: Seq<u8>) -> Option<(Seq<char>, Seq<u8>)> {
    match take_bytes(b) {
        Some((t, r)) => if valid_utf8(t) {
            Some((decode_utf8(t), r))
        } else {
            None
        },
        None => None,
    }
}

spec fn parse_body(t: u32, b: Seq<u8>) -> Option<(MessageView, Seq<u8>)> {
    if t == 0 {
        match take_text(b) {
            Some((c, r)) => Some((MessageView::Text { content: c }, r)),
            None => None,
        }
    } else if t == 1 {
        match take_text(b) {
            Some((name, r1)) => match take_u64(r1) {
                Some((size, r2)) => match take_u128(r2) {
                    Some((id, r3)) => Some((MessageView::FileOffer { name, size, id }, r3)),
                    None => None,
                },
                None => None,
            },
            None => None,
        }
    } else if t == 2 || t == 3 || t == 5 {
        match take_u128(b) {
            Some((id, r)) => Some(
                (
                    if t == 2 {
                        MessageView::FileAccept { id }
                    } else if t == 3 {
                        MessageView::FileReject { id }
                    } else {
                        MessageView::FileComplete { id }
                    },
                    r,
                ),
            ),
            None => None,
        }
    } else if t == 4 {
        match take_u128(b) {
            Some((id, r1)) => match take_u64(r1) {
                Some((offset, r2)) => match take_bytes(r2) {
                    Some((data, r3)) => Some((MessageView::FileChunk { id, offset, data }, r3)),
                    None => None,
                },
                None => None,
            },
            None => None,
        }
    } else {
        None
    }
}

spec fn parse(b: Seq<u8>) -> Option<MessageView> {
    match take_u32(b) {
        Some((t, r)) => match parse_body(t, r) {
            Some((m, rest)) => if rest.len() == 0 {
                Some(m)
            } else {
                None
            },
            None => None,
        },
        None => None,
    }
}

proof fn lemma_take_u32(x: u32, r: Seq<u8>)
    ensures
        take_u32(tag_field(x) + r) == Some((x, r)),
{
    lemma_auto_spec_u32_to_from_le_bytes();
    assert((tag_field(x) + r).take(4) =~= tag_field(x));
    assert((tag_field(x) + r).skip(4) =~= r);
}

proof fn lemma_take_u64(x: u64, r: Seq<u8>)
    ensures
        take_u64(u64_field(x) + r) == Some((x, r)),
{
    lemma_auto_spec_u64_to_from_le_bytes();
    assert((u64_field(x) + r).take(8) =~= u64_field(x));
    assert((u64_field(x) + r).skip(8) =~= r);
}

proof fn lemma_take_u128(x: u128, r: Seq<u8>)
    ensures
        take_u128(id_field(x) + r) == Some((x, r)),
{
    lemma_auto_spec_u128_to_from_le_bytes();
    assert((id_field(x) + r).take(16) =~= id_field(x));
    assert((id_field(x) + r).skip(16) =~= r);
}

proof fn lemma_take_bytes(b: Seq<u8>, r: Seq<u8>)
    requires
        fits_u64(b.len()),
    ensures
        take_bytes(bytes_field(b) + r) == Some((b, r)),
{
    let n = b.len() as u64;
    assert(bytes_field(b) + r =~= u64_field(n) + (b + r));
    lemma_take_u64(n, b + r);
    assert((b + r).take(b.len() as int) =~= b);
    assert((b + r).skip(b.len() as int) =~= r);
}

proof fn lemma_take_text(s: Seq<char>, r: Seq<u8>)
    requires
        fits_u64(encode_utf8(s).len()),
    ensures
        take_text(text_field(s) + r) == Some((s, r)),
{
    lemma_take_bytes(encode_utf8(s), r);
    encode_utf8_valid_utf8(s);
    encode_utf8_decode_utf8(s);
}

proof fn lemma_u32_split(b: Seq<u8>, x: u32, r: Seq<u8>)
    requires
        take_u32(b) == Some((x, r)),
    ensures
        b == tag_field(x) + r,
{
    lemma_auto_spec_u32_to_from_le_bytes();
    assert(b.take(4).len() == 4);
    assert(b =~= b.take(4) + b.skip(4));
}

proof fn lemma_u64_split(b: Seq<u8>, x: u64, r: Seq<u8>)
    requires
        take_u64(b) == Some((x, r)),
    ensures
        b == u64_field(x) + r,
{
    lemma_auto_spec_u64_to_from_le_bytes();
    assert(b.take(8).len() == 8);
    assert(b =~= b.take(8) + b.skip(8));
}

proof fn lemma_u128_split(b: Seq<u8>, x: u128, r: Seq<u8>)
    requires
        take_u128(b) == Some((x, r)),
    ensures
        b == id_field(x) + r,
{
    lemma_auto_spec_u128_to_from_le_bytes();
    assert(b.take(16).len() == 16);
    assert(b =~= b.take(16) + b.skip(16));
}

proof fn lemma_bytes_split(b: Seq<u8>, d: Seq<u8>, r: Seq<u8>)
    requires
        take_bytes(b) == Some((d, r)),
    ensures
        b == bytes_field(d) + r,
        fits_u64(d.len()),
{
    let (n, r0) = take_u64(b)->0;
    lemma_u64_split(b, n, r0);
    assert(r0 =~= d + r);
    assert(b =~= bytes_field(d) + r);
}

proof fn lemma_text_split(b: Seq<u8>, c: Seq<char>, r: Seq<u8>)
    requires
        take_text(b) == Some((c, r)),
    ensures
        b == text_field(c) + r,
        fits_u64(encode_utf8(c).len()),
{
    let (d, r0) = take_bytes(b)->0;
    lemma_bytes_split(b, d, r0);
    decode_utf8_encode_utf8(d);
}

/// Reading a representable message back from its encoding gives the message.
proof fn lemma_parse_encoding(m: MessageView)
    requires
        representable(m),
    ensures
        parse(encoding(m)) == Some(m),
{
    let e = Seq::<u8>::empty();
    match m {
        MessageView::Text { content } => {
            lemma_take_text(content, e);
            assert(text_field(content) + e =~= text_field(content));
            lemma_take_u32(0, text_field(content));
        },
        MessageView::FileOffer { name, size, id } => {
            lemma_take_u128(id, e);
            assert(id_field(id) + e =~= id_field(id));
            lemma_take_u64(size, id_field(id));
            lemma_take_text(name, u64_field(size) + id_field(id));
            let body = text_field(name) + (u64_field(size) + id_field(id));
            lemma_take_u32(1, body);
            assert(encoding(m) =~= tag_field(1) + body);
        },
        MessageView::FileAccept { id } => {
            lemma_take_u128(id, e);
            assert(id_field(id) + e =~= id_field(id));
            lemma_take_u32(2, id_field(id));
        },
        MessageView::FileReject { id } => {
            lemma_take_u128(id, e);
            assert(id_field(id) + e =~= id_field(id));
            lemma_take_u32(3, id_field(id));
        },
        MessageView::FileChunk { id, offset, data } => {
            lemma_take_bytes(data, e);
            assert(bytes_field(data) + e =~= bytes_field(data));
            lemma_take_u64(offset, bytes_field(data));
            lemma_take_u128(id, u64_field(offset) + bytes_field(data));
            let body = id_field(id) + (u64_field(offset) + bytes_field(data));
            lemma_take_u32(4, body);
            assert(encoding(m) =~= tag_field(4) + body);
        },
        MessageView::FileComplete { id } => {
            lemma_take_u128(id, e);
            assert(id_field(id) + e =~= id_field(id));
            lemma_take_u32(5, id_field(id));
        },
    }
}

/// Whatever the reader accepts is the encoding of what it returns.
proof fn lemma_parse_sound(b: Seq<u8>, m: MessageView)
    requires
        parse(b) == Some(m),
    ensures
        encoding(m) == b,
        representable(m),
{
    let (t, r) = take_u32(b)->0;
    lemma_u32_split(b, t, r);
    let e = Seq::<u8>::empty();
    if t == 0 {
        let (c, r1) = take_text(r)->0;
        lemma_text_split(r, c, r1);
        assert(r1 =~= e);
        assert(b =~= encoding(m));
    } else if t == 1 {
        let (name, r1) = take_text(r)->0;
        lemma_text_split(r, name, r1);
        let (size, r2) = take_u64(r1)->0;
        lemma_u64_split(r1, size, r2);
        let (id, r3) = take_u128(r2)->0;
        lemma_u128_split(r2, id, r3);
        assert(r3 =~= e);
        assert(b =~= encoding(m));
    } else if t == 2 || t == 3 || t == 5 {
        let (id, r1) = take_u128(r)->0;
        lemma_u128_split(r, id, r1);
        assert(r1 =~= e);
        assert(b =~= encoding(m));
    } else {
        let (id, r1) = take_u128(r)->0;
        lemma_u128_split(r, id, r1);
        let (offset, r2) = take_u64(r1)->0;
        lemma_u64_split(r1, offset, r2);
        let (data, r3) = take_bytes(r2)->0;
        lemma_bytes_split(r2, data, r3);
        assert(r3 =~= e);
        assert(b =~= encoding(m));
    }
}

/// Round trip: the only message whose encoding equals that of a message `m`
/// is `m` itself. With the contracts of [`Message::encode`] and
/// [`Message::decode`], decoding the encoding of `m` returns `Ok` (the `Err`
/// case excludes every encoding) with a value equal to `m`.
pub proof fn lemma_decode_encode(m: MessageView, decoded: MessageView)
    requires
        representable(m),
        representable(decoded),
        encoding(decoded) == encoding(m),
    ensures
        decoded == m,
{
    lemma_encoding_injective(m, decoded);
}

/// The encoding is one-to-one on representable messages.
proof fn lemma_encoding_injective(m1: MessageView, m2: MessageView)
    requires
        representable(m1),
        representable(m2),
        encoding(m1) == encoding(m2),
    ensures
        m1 == m2,
{
    lemma_parse_encoding(m1);
    lemma_parse_encoding(m2);
}

/// Relies on `String::from_utf8`: it accepts exactly the valid UTF-8 byte
/// strings and yields the characters they encode.
#[verifier::external_body]
fn string_from_utf8(bytes: Vec<u8>) -> (r: Option<String>)
    ensures
        r is Some <==> valid_utf8(bytes@),
        r matches Some(s) ==> s@ == decode_utf8(bytes@),
{
    String::from_utf8(bytes).ok()
}

fn put_u32(out: &mut Vec<u8>, x: u32)
    ensures
        final(out)@ == old(out)@ + tag_field(x),
{
    let mut b = u32_to_le_bytes(x);
    out.append(&mut b);
}

fn put_u64(out: &mut Vec<u8>, x: u64)
    ensures
        final(out)@ == old(out)@ + u64_field(x),
{
    let mut b = u64_to_le_bytes(x);
    out.append(&mut b);
}

fn put_id(out: &mut Vec<u8>, x: u128)
    ensures
        final(out)@ == old(out)@ + id_field(x),
{
    let mut b = u128_to_le_bytes(x);
    out.append(&mut b);
}

fn put_bytes(out: &mut Vec<u8>, data: &[u8])
    ensures
        final(out)@ == old(out)@ + bytes_field(data@),
        fits_u64(data@.len()),
{
    let n: usize = data.len();
    put_u64(out, n as u64);
    let mut b = slice_to_vec(data);
    out.append(&mut b);
    assert(final(out)@ =~= old(out)@ + bytes_field(data@));
}

fn put_text(out: &mut Vec<u8>, s: &String)
    ensures
        final(out)@ == old(out)@ + text_field(s@),
        fits_u64(encode_utf8(s@).len()),
{
    let b = s.as_str().as_bytes();
    put_bytes(out, b);
}

fn read_u32(b: &[u8], pos: usize) -> (r: Option<(u32, usize)>)
    requires
        pos <= b@.len(),
    ensures
        match r {
            Some((x, p)) => pos <= p <= b@.len() && take_u32(b@.skip(pos as int)) == Some(
                (x, b@.skip(p as int)),
            ),
            None => take_u32(b@.skip(pos as int)) is None,
        },
{
    if b.len() - pos < 4 {
        return None;
    }
    let x = u32_from_le_bytes(slice_subrange(b, pos, pos + 4));
    assert(b@.skip(pos as int).take(4) =~= b@.subrange(pos as int, pos + 4));
    assert(b@.skip(pos as int).skip(4) =~= b@.skip(pos + 4));
    Some((x, pos + 4))
}

fn read_u64(b: &[u8], pos: usize) -> (r: Option<(u64, usize)>)
    requires
        pos <= b@.len(),
    ensures
        match r {
            Some((x, p)) => pos <= p <= b@.len() && take_u64(b@.skip(pos as int)) == Some(
                (x, b@.skip(p as int)),
            ),
            None => take_u64(b@.skip(pos as int)) is None,
        },
{
    if b.len() - pos < 8 {
        return None;
    }
    let x = u64_from_le_bytes(slice_subrange(b, pos, pos + 8));
    assert(b@.skip(pos as int).take(8) =~= b@.subrange(pos as int, pos + 8));
    assert(b@.skip(pos as int).skip(8) =~= b@.skip(pos + 8));
    Some((x, pos + 8))
}

fn read_id(b: &[u8], pos: usize) -> (r: Option<(u128, usize)>)
    requires
        pos <= b@.len(),
    ensures
        match r {
            Some((x, p)) => pos <= p <= b@.len() && take_u128(b@.skip(pos as int)) == Some(
                (x, b@.skip(p as int)),
            ),
            None => take_u128(b@.skip(pos as int)) is None,
        },
{
    if b.len() - pos < 16 {
        return None;
    }
    let x = u128_from_le_bytes(slice_subrange(b, pos, pos + 16));
    assert(b@.skip(pos as int).take(16) =~= b@.subrange(pos as int, pos + 16));
    assert(b@.skip(pos as int).skip(16) =~= b@.skip(pos + 16));
    Some((x, pos + 16))
}

fn read_bytes(b: &[u8], pos: usize) -> (r: Option<(Vec<u8>, usize)>)
    requires
        pos <= b@.len(),
    ensures
        match r {
            Some((d, p)) => pos <= p <= b@.len() && take_bytes(b@.skip(pos as int)) == Some(
                (d@, b@.skip(p as int)),
            ),
            None => take_bytes(b@.skip(pos as int)) is None,
        },
{
    let (n, p) = match read_u64(b, pos) {
        Some(x) => x,
        None => return None,
    };
    if n > (b.len() - p) as u64 {
        return None;
    }
    let end = p + n as usize;
    let d = slice_to_vec(slice_subrange(b, p, end));
    assert(b@.skip(p as int).take(n as int) =~= d@);
    assert(b@.skip(p as int).skip(n as int) =~= b@.skip(end as int));
    Some((d, end))
}

fn read_text(b: &[u8], pos: usize) -> (r: Option<(String, usize)>)
    requires
        pos <= b@.len(),
    ensures
        match r {
            Some((s, p)) => pos <= p <= b@.len() && take_text(b@.skip(pos as int)) == Some(
                (s@, b@.skip(p as int)),
            ),
            None => take_text(b@.skip(pos as int)) is None,
        },
{
    let (d, p) = match read_bytes(b, pos) {
        Some(x) => x,
        None => return None,
    };
    match string_from_utf8(d) {
        Some(s) => Some((s, p)),
        None => None,
    }
}

impl Message {
    /// The bytes of this message; every message can be encoded.
    pub fn encode(&self) -> (r: Result<Vec<u8>, CodecError>)
        ensures
            r matches Ok(v) && v@ == encoding(self@),
            representable(self@),
    {
        let mut out: Vec<u8> = Vec::new();
        match self {
            Message::Text { content } => {
                put_u32(&mut out, 0);
                put_text(&mut out, content);
            },
            Message::FileOffer { name, size, id } => {
                put_u32(&mut out, 1);
                put_text(&mut out, name);
                put_u64(&mut out, *size);
                put_id(&mut out, *id);
            },
            Message::FileAccept { id } => {
                put_u32(&mut out, 2);
                put_id(&mut out, *id);
            },
            Message::FileReject { id } => {
                put_u32(&mut out, 3);
                put_id(&mut out, *id);
            },
            Message::FileChunk { id, offset, data } => {
                put_u32(&mut out, 4);
                put_id(&mut out, *id);
                put_u64(&mut out, *offset);
                put_bytes(&mut out, data.as_slice());
            },
            Message::FileComplete { id } => {
                put_u32(&mut out, 5);
                put_id(&mut out, *id);
            },
        }
        assert(out@ =~= encoding(self@));
        Ok(out)
    }

    /// The message that `bytes` encode; `Malformed` when they encode none
    /// (too short, an unknown tag, invalid UTF-8, or bytes left over).
    pub fn decode(bytes: &[u8]) -> (r: Result<Message, CodecError>)
        ensures
            match r {
                Ok(m) => encoding(m@) == bytes@ && representable(m@),
                Err(e) => e == CodecError::Malformed && forall|m: MessageView|
                    representable(m) ==> encoding(m) != bytes@,
            },
    {
        let r = Self::decode_parts(bytes);
        proof {
            match &r {
                Ok(m) => lemma_parse_sound(bytes@, m@),
                Err(_) => {
                    assert forall|m: MessageView| representable(m) implies encoding(m)
                        != bytes@ by {
                        lemma_parse_encoding(m);
                    }
                },
            }
        }
        r
    }

    fn decode_parts(bytes: &[u8]) -> (r: Result<Message, CodecError>)
        ensures
            match r {
                Ok(m) => parse(bytes@) == Some(m@),
                Err(e) => e == CodecError::Malformed && parse(bytes@) is None,
            },
    {
        assert(bytes@.skip(0) =~= bytes@);
        let (t, p) = match read_u32(bytes, 0) {
            Some(x) => x,
            None => return Err(CodecError::Malformed),
        };
        let (m, end) = if t == 0 {
            match read_text(bytes, p) {
                Some((content, q)) => (Message::Text { content }, q),
                None => return Err(CodecError::Malformed),
            }
        } else if t == 1 {
            let (name, p1) = match read_text(bytes, p) {
                Some(x) => x,
                None => return Err(CodecError::Malformed),
            };
            let (size, p2) = match read_u64(bytes, p1) {
                Some(x) => x,
                None => return Err(CodecError::Malformed),
            };
            match read_id(bytes, p2) {
                Some((id, q)) => (Message::FileOffer { name, size, id }, q),
                None => return Err(CodecError::Malformed),
            }
        } else if t == 2 || t == 3 || t == 5 {
            match read_id(bytes, p) {
                Some((id, q)) => (
                    if t == 2 {
                        Message::FileAccept { id }
                    } else if t == 3 {
                        Message::FileReject { id }
                    } else {
                        Message::FileComplete { id }
                    },
                    q,
                ),
                None => return Err(CodecError::Malformed),
            }
        } else if t == 4 {
            let (id, p1) = match read_id(bytes, p) {
                Some(x) => x,
                None => return Err(CodecError::Malformed),
            };
            let (offset, p2) = match read_u64(bytes, p1) {
                Some(x) => x,
                None => return Err(CodecError::Malformed),
            };
            match read_bytes(bytes, p2) {
                Some((data, q)) => (Message::FileChunk { id, offset, data }, q),
                None => return Err(CodecError::Malformed),
            }
        } else {
            return Err(CodecError::Malformed);
        };
        assert(parse_body(t, bytes@.skip(p as int)) == Some((m@, bytes@.skip(end as int))));
        if end != bytes.len() {
            return Err(CodecError::Malformed);
        }
        Ok(m)
    }
}

} // verus!

//! The record codec: serializes a record to an opaque byte payload and back.
//!
//! The payload is a fixed-order concatenation of little-endian 64-bit fields
//! and length-prefixed byte chunks: id, timestamp, method, path, a header
//! count followed by the header name/value chunks, and the body.  Decoding
//! accepts exactly the encodings this module produces: every field must be
//! present, every string chunk must be valid UTF-8, and no bytes may trail
//! the body.

use vstd::prelude::*;
use vstd::utf8::decode_utf8;
use vstd::utf8::encode_utf8;
use vstd::utf8::encode_utf8_decode_utf8;
use vstd::utf8::valid_utf8;

use crate::models::RecordView;
use crate::models::StoredRequest;
use crate::models::headers_view;

verus! {

// ---------------------------------------------------------------------------
// Little-endian 64-bit fields
// ---------------------------------------------------------------------------

/// The eight little-endian bytes of a 64-bit value.
pub open spec fn le8(x: u64) -> Seq<u8> {
    seq![
        (x & 0xff) as u8,
        ((x >> 8) & 0xff) as u8,
        ((x >> 16) & 0xff) as u8,
        ((x >> 24) & 0xff) as u8,
        ((x >> 32) & 0xff) as u8,
        ((x >> 40) & 0xff) as u8,
        ((x >> 48) & 0xff) as u8,
        ((x >> 56) & 0xff) as u8,
    ]
}

/// The 64-bit value read from eight little-endian bytes starting at `pos`.
pub open spec fn read_le8(b: Seq<u8>, pos: int) -> u64 {
    (b[pos] as u64) | ((b[pos + 1] as u64) << 8) | ((b[pos + 2] as u64) << 16) | ((b[pos
        + 3] as u64) << 24) | ((b[pos + 4] as u64) << 32) | ((b[pos + 5] as u64) << 40) | ((b[pos
        + 6] as u64) << 48) | ((b[pos + 7] as u64) << 56)
}

/// Reading back the eight little-endian bytes of a value yields the value.
pub proof fn lemma_le8_read(b: Seq<u8>, pos: int, x: u64)
    requires
        0 <= pos,
        pos + 8 <= b.len(),
        b.subrange(pos, pos + 8) == le8(x),
    ensures
        read_le8(b, pos) == x,
{
    assert(b[pos] == le8(x)[0]);
    assert(b[pos + 1] == le8(x)[1]);
    assert(b[pos + 2] == le8(x)[2]);
    assert(b[pos + 3] == le8(x)[3]);
    assert(b[pos + 4] == le8(x)[4]);
    assert(b[pos + 5] == le8(x)[5]);
    assert(b[pos + 6] == le8(x)[6]);
    assert(b[pos + 7] == le8(x)[7]);
    assert((((x & 0xff) as u8) as u64) | (((((x >> 8) & 0xff) as u8) as u64) << 8) | (((((x >> 16)
        & 0xff) as u8) as u64) << 16) | (((((x >> 24) & 0xff) as u8) as u64) << 24) | (((((x >> 32)
        & 0xff) as u8) as u64) << 32) | (((((x >> 40) & 0xff) as u8) as u64) << 40) | (((((x >> 48)
        & 0xff) as u8) as u64) << 48) | (((((x >> 56) & 0xff) as u8) as u64) << 56) == x)
        by (bit_vector);
}

/// The unsigned 64-bit pattern that stands for a signed timestamp.
pub open spec fn i64_bits(x: i64) -> u64 {
    if x >= 0 {
        x as u64
    } else {
        (x + 0x1_0000_0000_0000_0000) as u64
    }
}

/// The signed timestamp read back from its unsigned 64-bit pattern.
pub open spec fn bits_i64(u: u64) -> i64 {
    if u < 0x8000_0000_0000_0000 {
        u as i64
    } else {
        (u - 0x1_0000_0000_0000_0000) as i64
    }
}

/// The timestamp survives the trip through its bit pattern.
pub proof fn lemma_i64_bits_round(x: i64)
    ensures
        bits_i64(i64_bits(x)) == x,
{
}

// ---------------------------------------------------------------------------
// The encoding, as a mathematical function
// ---------------------------------------------------------------------------

/// A length-prefixed chunk of bytes.
pub open spec fn chunk(b: Seq<u8>) -> Seq<u8> {
    le8(b.len() as u64) + b
}

/// A string, encoded as the length-prefixed chunk of its UTF-8 bytes.
pub open spec fn chunk_str(s: Seq<char>) -> Seq<u8> {
    chunk(encode_utf8(s))
}

/// The header list, encoded as name and value chunks in order.
pub open spec fn encode_headers(hs: Seq<(Seq<char>, Seq<char>)>) -> Seq<u8>
    decreases hs.len(),
{
    if hs.len() == 0 {
        Seq::empty()
    } else {
        chunk_str(hs[0].0) + chunk_str(hs[0].1) + encode_headers(hs.drop_first())
    }
}

/// The full encoding of a record.
pub open spec fn encode_spec(m: RecordView) -> Seq<u8> {
    le8(m.id) + le8(i64_bits(m.ts_ms)) + chunk_str(m.method) + chunk_str(m.path) + le8(
        m.headers.len() as u64,
    ) + encode_headers(m.headers) + chunk(m.body)
}

/// Whether every variable-length part of a record fits its 64-bit length
/// prefix.  Records built from in-memory strings and vectors always do.
pub open spec fn hdr_fits(h: (Seq<char>, Seq<char>)) -> bool {
    encode_utf8(h.0).len() <= u64::MAX && encode_utf8(h.1).len() <= u64::MAX
}

pub open spec fn encodable(m: RecordView) -> bool {
    &&& encode_utf8(m.method).len() <= u64::MAX
    &&& encode_utf8(m.path).len() <= u64::MAX
    &&& m.headers.len() <= u64::MAX
    &&& (forall|i: int| 0 <= i < m.headers.len() ==> hdr_fits(#[trigger] m.headers[i]))
    &&& m.body.len() <= u64::MAX
}

// ---------------------------------------------------------------------------
// The decoding, as a mathematical function
// ---------------------------------------------------------------------------

/// Reads one length-prefixed chunk at `pos`; yields its bytes and the
/// position after it.
pub open spec fn parse_chunk(b: Seq<u8>, pos: int) -> Option<(Seq<u8>, int)> {
    if 0 <= pos && pos + 8 <= b.len() {
        let n = read_le8(b, pos) as int;
        if pos + 8 + n <= b.len() {
            Some((b.subrange(pos + 8, pos + 8 + n), pos + 8 + n))
        } else {
            None
        }
    } else {
        None
    }
}

/// Reads one string chunk at `pos`: its bytes must be valid UTF-8.
pub open spec fn parse_str(b: Seq<u8>, pos: int) -> Option<(Seq<char>, int)> {
    match parse_chunk(b, pos) {
        Some(c) => if valid_utf8(c.0) {
            Some((decode_utf8(c.0), c.1))
        } else {
            None
        },
        None => None,
    }
}

/// Reads `n` header name/value pairs starting at `pos`.
pub open spec fn parse_headers(b: Seq<u8>, pos: int, n: nat) -> Option<
    (Seq<(Seq<char>, Seq<char>)>, int),
>
    decreases n,
{
    if n == 0 {
        Some((Seq::empty(), pos))
    } else {
        match parse_str(b, pos) {
            Some(name) => match parse_str(b, name.1) {
                Some(value) => match parse_headers(b, value.1, (n - 1) as nat) {
                    Some(rest) => Some((seq![(name.0, value.0)] + rest.0, rest.1)),
                    None => None,
                },
                None => None,
            },
            None => None,
        }
    }
}

/// The full decoding of a payload.  `None` for anything that is not exactly
/// an encoding produced by `encode_spec`.
pub open spec fn decode_spec(b: Seq<u8>) -> Option<RecordView> {
    if b.len() < 16 {
        None
    } else {
        match parse_str(b, 16) {
            Some(m) => match parse_str(b, m.1) {
                Some(p) => if p.1 + 8 <= b.len() {
                    match parse_headers(b, p.1 + 8, read_le8(b, p.1) as nat) {
                        Some(hs) => match parse_chunk(b, hs.1) {
                            Some(bd) => if bd.1 == b.len() {
                                Some(
                                    RecordView {
                                        id: read_le8(b, 0),
                                        ts_ms: bits_i64(read_le8(b, 8)),
                                        method: m.0,
                                        path: p.0,
                                        headers: hs.0,
                                        body: bd.0,
                                    },
                                )
                            } else {
                                None
                            },
                            None => None,
                        },
                        None => None,
                    }
                } else {
                    None
                },
                None => None,
            },
            None => None,
        }
    }
}

// ---------------------------------------------------------------------------
// Round trip: decoding an encoding yields the record
// ---------------------------------------------------------------------------

/// A chunk embedded in a larger payload parses to its own bytes.
proof fn lemma_parse_chunk_at(b: Seq<u8>, pos: int, x: Seq<u8>)
    requires
        0 <= pos,
        x.len() <= u64::MAX,
        pos + 8 + x.len() <= b.len(),
        b.subrange(pos, pos + 8 + x.len()) == chunk(x),
    ensures
        parse_chunk(b, pos) == Some((x, pos + 8 + x.len())),
{
    assert(chunk(x) == le8(x.len() as u64) + x);
    assert(le8(x.len() as u64).len() == 8);
    lemma_split_at(b, pos, le8(x.len() as u64), x);
    lemma_le8_read(b, pos, x.len() as u64);
    assert(read_le8(b, pos) == x.len());
}

/// A string chunk embedded in a larger payload parses to its own characters.
proof fn lemma_parse_str_at(b: Seq<u8>, pos: int, s: Seq<char>)
    requires
        0 <= pos,
        encode_utf8(s).len() <= u64::MAX,
        pos + 8 + encode_utf8(s).len() <= b.len(),
        b.subrange(pos, pos + 8 + encode_utf8(s).len()) == chunk_str(s),
    ensures
        parse_str(b, pos) == Some((s, pos + 8 + encode_utf8(s).len())),
{
    lemma_parse_chunk_at(b, pos, encode_utf8(s));
    vstd::utf8::encode_utf8_valid_utf8(s);
    encode_utf8_decode_utf8(s);
}

/// Splits the range of a two-part concatenation into the ranges of its parts.
proof fn lemma_split_at(b: Seq<u8>, pos: int, p: Seq<u8>, q: Seq<u8>)
    requires
        0 <= pos,
        pos + p.len() + q.len() <= b.len(),
        b.subrange(pos, pos + p.len() + q.len()) == p + q,
    ensures
        b.subrange(pos, pos + p.len()) == p,
        b.subrange(pos + p.len(), pos + p.len() + q.len()) == q,
{
    let whole = b.subrange(pos, pos + p.len() + q.len());
    assert forall|k: int| 0 <= k < p.len() implies b.subrange(pos, pos + p.len())[k] == p[k] by {
        assert(whole[k] == b[pos + k]);
        assert(whole[k] == (p + q)[k]);
    }
    assert(b.subrange(pos, pos + p.len()) =~= p);
    assert forall|k: int|
        0 <= k < q.len() implies b.subrange(pos + p.len(), pos + p.len() + q.len())[k] == q[k] by {
        assert(whole[p.len() + k] == b[pos + p.len() + k]);
        assert(whole[p.len() + k] == (p + q)[p.len() + k]);
        assert((p + q)[p.len() + k] == q[k]);
    }
    assert(b.subrange(pos + p.len(), pos + p.len() + q.len()) =~= q);
}

/// An encoded header list embedded in a larger payload parses to itself.
proof fn lemma_parse_headers_at(b: Seq<u8>, pos: int, hs: Seq<(Seq<char>, Seq<char>)>)
    requires
        0 <= pos,
        forall|i: int| 0 <= i < hs.len() ==> hdr_fits(#[trigger] hs[i]),
        pos + encode_headers(hs).len() <= b.len(),
        b.subrange(pos, pos + encode_headers(hs).len()) == encode_headers(hs),
    ensures
        parse_headers(b, pos, hs.len() as nat) == Some((hs, pos + encode_headers(hs).len())),
    decreases hs.len(),
{
    if hs.len() == 0 {
        assert(parse_headers(b, pos, 0) == Some((Seq::<(Seq<char>, Seq<char>)>::empty(), pos)));
        assert(hs =~= Seq::<(Seq<char>, Seq<char>)>::empty());
    } else {
        let name = hs[0].0;
        let value = hs[0].1;
        let n_len: int = 8 + encode_utf8(name).len() as int;
        let v_len: int = 8 + encode_utf8(value).len() as int;
        let rest = hs.drop_first();
        assert(encode_headers(hs) == (chunk_str(name) + chunk_str(value)) + encode_headers(rest));
        lemma_split_at(b, pos, chunk_str(name) + chunk_str(value), encode_headers(rest));
        lemma_split_at(b, pos, chunk_str(name), chunk_str(value));
        lemma_parse_str_at(b, pos, name);
        lemma_parse_str_at(b, pos + n_len, value);
        let rest_pos = pos + n_len + v_len;
        assert(forall|i: int| 0 <= i < rest.len() ==> hdr_fits(#[trigger] rest[i])) by {
            assert(forall|i: int| 0 <= i < rest.len() ==> rest[i] == hs[i + 1]);
        }
        lemma_parse_headers_at(b, rest_pos, rest);
        assert(seq![(name, value)] + rest =~= hs);
    }
}

/// Decoding an encoding yields exactly the record that was encoded.
///
/// This is the codec's round-trip guarantee: every field — id, timestamp,
/// method, path, the ordered header pairs with duplicates, and the raw body
/// bytes, empty or not — survives encoding followed by decoding.
#[verifier::rlimit(80)]
pub proof fn lemma_round_trip(m: RecordView)
    requires
        encodable(m),
    ensures
        decode_spec(encode_spec(m)) == Some(m),
{
    let b = encode_spec(m);
    let m_len: int = 8 + encode_utf8(m.method).len() as int;
    let p_len: int = 8 + encode_utf8(m.path).len() as int;
    let h_len: int = encode_headers(m.headers).len() as int;
    let b_len: int = 8 + m.body.len() as int;
    let s1 = le8(m.id);
    let s2 = le8(i64_bits(m.ts_ms));
    let s3 = chunk_str(m.method);
    let s4 = chunk_str(m.path);
    let s5 = le8(m.headers.len() as u64);
    let s6 = encode_headers(m.headers);
    let s7 = chunk(m.body);
    assert(b == ((((((s1 + s2) + s3) + s4) + s5) + s6) + s7));
    assert(b.len() == 16 + m_len + p_len + 8 + h_len + b_len);
    assert(b.subrange(0, b.len() as int) =~= b);
    lemma_split_at(b, 0, (((((s1 + s2) + s3) + s4) + s5) + s6), s7);
    lemma_split_at(b, 0, ((((s1 + s2) + s3) + s4) + s5), s6);
    lemma_split_at(b, 0, (((s1 + s2) + s3) + s4), s5);
    lemma_split_at(b, 0, ((s1 + s2) + s3), s4);
    lemma_split_at(b, 0, (s1 + s2), s3);
    lemma_split_at(b, 0, s1, s2);

    lemma_le8_read(b, 0, m.id);
    lemma_le8_read(b, 8, i64_bits(m.ts_ms));
    lemma_i64_bits_round(m.ts_ms);
    lemma_parse_str_at(b, 16, m.method);
    let p1 = 16 + m_len;
    lemma_parse_str_at(b, p1, m.path);
    let p2 = p1 + p_len;
    lemma_le8_read(b, p2, m.headers.len() as u64);
    assert(read_le8(b, p2) as nat == m.headers.len());
    let p3 = p2 + 8;
    lemma_parse_headers_at(b, p3, m.headers);
    let p4 = p3 + h_len;
    lemma_parse_chunk_at(b, p4, m.body);
    assert(p4 + b_len == b.len());
    assert(decode_spec(b) == Some(
        RecordView {
            id: m.id,
            ts_ms: m.ts_ms,
            method: m.method,
            path: m.path,
            headers: m.headers,
            body: m.body,
        },
    ));
    assert(RecordView {
        id: m.id,
        ts_ms: m.ts_ms,
        method: m.method,
        path: m.path,
        headers: m.headers,
        body: m.body,
    } =~= m);
}

// ---------------------------------------------------------------------------
// Executable encoding
// ---------------------------------------------------------------------------

/// Each byte extracted from a 64-bit value by mask and shift is below 256.
proof fn lemma_byte_masks(x: u64)
    ensures
        x & 0xff < 256,
        (x >> 8) & 0xff < 256,
        (x >> 16) & 0xff < 256,
        (x >> 24) & 0xff < 256,
        (x >> 32) & 0xff < 256,
        (x >> 40) & 0xff < 256,
        (x >> 48) & 0xff < 256,
        (x >> 56) & 0xff < 256,
{
    assert(x & 0xff < 256 && (x >> 8) & 0xff < 256 && (x >> 16) & 0xff < 256 && (x >> 24) & 0xff
        < 256 && (x >> 32) & 0xff < 256 && (x >> 40) & 0xff < 256 && (x >> 48) & 0xff < 256 && (x
        >> 56) & 0xff < 256) by (bit_vector);
}

/// Appends the eight little-endian bytes of `x`.
fn push_le8(out: &mut Vec<u8>, x: u64)
    ensures
        final(out)@ == old(out)@ + le8(x),
{
    proof {
        lemma_byte_masks(x);
    }
    out.push((x & 0xff) as u8);
    out.push(((x >> 8) & 0xff) as u8);
    out.push(((x >> 16) & 0xff) as u8);
    out.push(((x >> 24) & 0xff) as u8);
    out.push(((x >> 32) & 0xff) as u8);
    out.push(((x >> 40) & 0xff) as u8);
    out.push(((x >> 48) & 0xff) as u8);
    out.push(((x >> 56) & 0xff) as u8);
    proof {
        assert(out@ =~= old(out)@ + le8(x));
    }
}

/// Appends a byte slice.
fn push_bytes(out: &mut Vec<u8>, b: &[u8])
    ensures
        final(out)@ == old(out)@ + b@,
{
    let n = b.len();
    let mut i: usize = 0;
    while i < n
        invariant
            i <= n,
            n == b@.len(),
            out@ == old(out)@ + b@.subrange(0, i as int),
        decreases n - i,
    {
        out.push(b[i]);
        proof {
            assert(out@ =~= old(out)@ + b@.subrange(0, i + 1 as int));
        }
        i = i + 1;
    }
    proof {
        assert(out@ =~= old(out)@ + b@);
    }
}

/// Appends a byte slice as a length-prefixed chunk.
fn push_chunk(out: &mut Vec<u8>, b: &[u8])
    ensures
        final(out)@ == old(out)@ + chunk(b@),
        b@.len() <= u64::MAX,
{
    let n = b.len();
    push_le8(out, n as u64);
    push_bytes(out, b);
    proof {
        assert(out@ =~= old(out)@ + chunk(b@));
    }
}

/// The bit pattern of a signed timestamp, computed without narrowing.
fn i64_to_bits(x: i64) -> (r: u64)
    ensures
        r == i64_bits(x),
{
    if x >= 0 {
        x as u64
    } else {
        let wide: i128 = x as i128;
        let modulus: i128 = 0x1_0000_0000_0000_0000;
        (wide + modulus) as u64
    }
}

/// The signed timestamp recovered from its bit pattern.
fn bits_to_i64(u: u64) -> (r: i64)
    ensures
        r == bits_i64(u),
{
    if u < 0x8000_0000_0000_0000 {
        u as i64
    } else {
        let wide: i128 = u as i128;
        let modulus: i128 = 0x1_0000_0000_0000_0000;
        (wide - modulus) as i64
    }
}

/// Appending one header pair extends the header encoding at its end.
proof fn lemma_encode_headers_snoc(hs: Seq<(Seq<char>, Seq<char>)>, h: (Seq<char>, Seq<char>))
    ensures
        encode_headers(hs.push(h)) == encode_headers(hs) + (chunk_str(h.0) + chunk_str(h.1)),
    decreases hs.len(),
{
    if hs.len() == 0 {
        assert(hs.push(h)[0] == h);
        assert(hs.push(h).drop_first() =~= hs);
        assert(encode_headers(hs.push(h)) =~= encode_headers(hs) + (chunk_str(h.0) + chunk_str(
            h.1,
        )));
    } else {
        assert(hs.push(h)[0] == hs[0]);
        assert(hs.push(h).drop_first() =~= hs.drop_first().push(h));
        lemma_encode_headers_snoc(hs.drop_first(), h);
        assert(encode_headers(hs.push(h)) =~= encode_headers(hs) + (chunk_str(h.0) + chunk_str(
            h.1,
        )));
    }
}

/// Serializes a record to its byte payload.
pub fn encode_record(req: &StoredRequest) -> (out: Vec<u8>)
    ensures
        out@ == encode_spec(req@),
        encodable(req@),
{
    let mut out: Vec<u8> = Vec::new();
    push_le8(&mut out, req.id);
    let ts = i64_to_bits(req.ts_ms);
    push_le8(&mut out, ts);
    push_chunk(&mut out, req.method.as_str().as_bytes());
    push_chunk(&mut out, req.path.as_str().as_bytes());
    let n = req.headers.len();
    push_le8(&mut out, n as u64);
    let ghost pre: Seq<u8> = out@;
    let mut i: usize = 0;
    while i < n
        invariant
            i <= n,
            n == req.headers@.len(),
            n <= u64::MAX,
            out@ == pre + encode_headers(req@.headers.subrange(0, i as int)),
            forall|j: int| 0 <= j < i ==> hdr_fits(#[trigger] req@.headers[j]),
        decreases n - i,
    {
        let pair = &req.headers[i];
        push_chunk(&mut out, pair.0.as_str().as_bytes());
        push_chunk(&mut out, pair.1.as_str().as_bytes());
        proof {
            let hv = req@.headers;
            assert(hv[i as int] == (req.headers@[i as int].0@, req.headers@[i as int].1@));
            lemma_encode_headers_snoc(hv.subrange(0, i as int), hv[i as int]);
            assert(hv.subrange(0, i + 1 as int) =~= hv.subrange(0, i as int).push(hv[i as int]));
            assert(out@ =~= pre + encode_headers(hv.subrange(0, i + 1 as int)));
        }
        i = i + 1;
    }
    proof {
        assert(req@.headers.subrange(0, n as int) =~= req@.headers);
    }
    push_chunk(&mut out, req.body.as_slice());
    proof {
        assert(out@ =~= encode_spec(req@));
    }
    out
}

// ---------------------------------------------------------------------------
// Executable decoding
// ---------------------------------------------------------------------------

/// Relies on `String::from_utf8`: it returns the string whose UTF-8 encoding
/// is exactly the input bytes, and fails precisely when the input is not
/// valid UTF-8.
#[verifier::external_body]
fn bytes_to_string(v: Vec<u8>) -> (r: Option<String>)
    ensures
        r is Some <==> valid_utf8(v@),
        r matches Some(s) ==> encode_utf8(s@) == v@,
{
    match String::from_utf8(v) {
        Ok(s) => Some(s),
        Err(_) => None,
    }
}

/// Reads the 64-bit little-endian field at `pos`.
fn read_le8_exec(b: &Vec<u8>, pos: usize) -> (x: u64)
    requires
        pos + 8 <= b@.len(),
    ensures
        x == read_le8(b@, pos as int),
{
    let n = b.len();
    (b[pos] as u64) | ((b[pos + 1] as u64) << 8) | ((b[pos + 2] as u64) << 16) | ((b[pos
        + 3] as u64) << 24) | ((b[pos + 4] as u64) << 32) | ((b[pos + 5] as u64) << 40) | ((b[pos
        + 6] as u64) << 48) | ((b[pos + 7] as u64) << 56)
}

/// Copies the bytes of `b` between `from` and `to` into a fresh vector.
fn sub_vec(b: &Vec<u8>, from: usize, to: usize) -> (r: Vec<u8>)
    requires
        from <= to,
        to <= b@.len(),
    ensures
        r@ == b@.subrange(from as int, to as int),
{
    let mut r: Vec<u8> = Vec::new();
    let mut i: usize = from;
    while i < to
        invariant
            from <= i <= to,
            to <= b@.len(),
            r@ == b@.subrange(from as int, i as int),
        decreases to - i,
    {
        r.push(b[i]);
        proof {
            assert(r@ =~= b@.subrange(from as int, i + 1 as int));
        }
        i = i + 1;
    }
    r
}

/// Reads one length-prefixed chunk at `pos`.
fn parse_chunk_exec(b: &Vec<u8>, pos: usize) -> (r: Option<(Vec<u8>, usize)>)
    requires
        pos <= b@.len(),
    ensures
        r matches Some(p) ==> parse_chunk(b@, pos as int) == Some((p.0@, p.1 as int)) && pos <= p.1
            <= b@.len(),
        r is None ==> parse_chunk(b@, pos as int) is None,
{
    if b.len() - pos < 8 {
        return None;
    }
    let n = read_le8_exec(b, pos);
    if n > (b.len() - pos - 8) as u64 {
        return None;
    }
    let n_us = n as usize;
    let data = sub_vec(b, pos + 8, pos + 8 + n_us);
    Some((data, pos + 8 + n_us))
}

/// Reads one string chunk at `pos`.
fn parse_str_exec(b: &Vec<u8>, pos: usize) -> (r: Option<(String, usize)>)
    requires
        pos <= b@.len(),
    ensures
        r matches Some(p) ==> parse_str(b@, pos as int) == Some((p.0@, p.1 as int)) && pos <= p.1
            <= b@.len(),
        r is None ==> parse_str(b@, pos as int) is None,
{
    match parse_chunk_exec(b, pos) {
        None => None,
        Some(c) => {
            let ghost bytes = c.0@;
            let end = c.1;
            match bytes_to_string(c.0) {
                None => None,
                Some(s) => {
                    proof {
                        encode_utf8_decode_utf8(s@);
                    }
                    Some((s, end))
                },
            }
        },
    }
}

/// Deserializes a byte payload back into a record.  `None` for any payload
/// that is not exactly an encoding produced by `encode_record`.
#[verifier::loop_isolation(false)]
pub fn decode_record(b: &Vec<u8>) -> (r: Option<StoredRequest>)
    ensures
        r matches Some(rec) ==> decode_spec(b@) == Some(rec@),
        r is None ==> decode_spec(b@) is None,
{
    if b.len() < 16 {
        return None;
    }
    let id = read_le8_exec(b, 0);
    let ts_bits = read_le8_exec(b, 8);
    let ts_ms = bits_to_i64(ts_bits);
    let (method, p1) = match parse_str_exec(b, 16) {
        None => {
            return None;
        },
        Some(x) => x,
    };
    let (path, p2) = match parse_str_exec(b, p1) {
        None => {
            return None;
        },
        Some(x) => x,
    };
    if b.len() - p2 < 8 {
        return None;
    }
    let hn = read_le8_exec(b, p2);
    let hstart = p2 + 8;
    let mut headers: Vec<(String, String)> = Vec::new();
    let mut pos: usize = hstart;
    let mut i: u64 = 0;
    while i < hn
        invariant
            i <= hn,
            pos <= b@.len(),
            hstart == p2 + 8,
            p2 + 8 <= b@.len(),
            hn == read_le8(b@, p2 as int),
            (match parse_headers(b@, pos as int, (hn - i) as nat) {
                Some(t) => parse_headers(b@, hstart as int, hn as nat) == Some(
                    (headers_view(headers@) + t.0, t.1),
                ),
                None => parse_headers(b@, hstart as int, hn as nat) is None,
            }),
        decreases hn - i,
    {
        let ghost rem = (hn - i) as nat;
        let (name, q1) = match parse_str_exec(b, pos) {
            None => {
                proof {
                    assert(parse_headers(b@, pos as int, rem) is None);
                }
                return None;
            },
            Some(x) => x,
        };
        let (value, q2) = match parse_str_exec(b, q1) {
            None => {
                proof {
                    assert(parse_headers(b@, pos as int, rem) is None);
                }
                return None;
            },
            Some(x) => x,
        };
        let ghost hv_old = headers_view(headers@);
        let ghost nm = name@;
        let ghost vl = value@;
        headers.push((name, value));
        proof {
            assert(headers_view(headers@) =~= hv_old.push((nm, vl)));
            match parse_headers(b@, q2 as int, (rem - 1) as nat) {
                Some(t) => {
                    assert(parse_headers(b@, pos as int, rem) == Some((seq![(nm, vl)] + t.0, t.1)));
                    assert(hv_old + (seq![(nm, vl)] + t.0) =~= hv_old.push((nm, vl)) + t.0);
                },
                None => {},
            }
        }
        pos = q2;
        i = i + 1;
    }
    proof {
        assert(parse_headers(b@, pos as int, 0) == Some(
            (Seq::<(Seq<char>, Seq<char>)>::empty(), pos as int),
        ));
        assert(headers_view(headers@) + Seq::<(Seq<char>, Seq<char>)>::empty() =~= headers_view(
            headers@,
        ));
    }
    let (body, p4) = match parse_chunk_exec(b, pos) {
        None => {
            return None;
        },
        Some(x) => x,
    };
    if p4 != b.len() {
        return None;
    }
    let ghost gmethod = method@;
    let ghost gpath = path@;
    let ghost gheaders = headers_view(headers@);
    let ghost gbody = body@;
    let rec = StoredRequest { id, ts_ms, method, path, headers, body };
    proof {
        assert(rec@ =~= RecordView {
            id: read_le8(b@, 0),
            ts_ms: bits_i64(read_le8(b@, 8)),
            method: gmethod,
            path: gpath,
            headers: gheaders,
            body: gbody,
        });
    }
    Some(rec)
}

} // verus!

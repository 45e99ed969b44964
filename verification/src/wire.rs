//! Binary encoding primitives for the worker wire protocol and the
//! on-disk database image: little-endian integers, length-prefixed byte
//! strings, booleans, and options, all with exact round trips.

use vstd::prelude::*;

verus! {

/// The four little-endian bytes of a 32-bit number.
pub open spec fn le32(n: u32) -> Seq<u8> {
    seq![
        (n & 0xff) as u8,
        ((n >> 8) & 0xff) as u8,
        ((n >> 16) & 0xff) as u8,
        ((n >> 24) & 0xff) as u8,
    ]
}

/// The number carried by four little-endian bytes.
pub open spec fn from_le32(b0: u8, b1: u8, b2: u8, b3: u8) -> u32 {
    (b0 as u32) | ((b1 as u32) << 8) | ((b2 as u32) << 16) | ((b3 as u32) << 24)
}

/// The eight little-endian bytes of a 64-bit number.
pub open spec fn le64(n: u64) -> Seq<u8> {
    seq![
        (n & 0xff) as u8,
        ((n >> 8) & 0xff) as u8,
        ((n >> 16) & 0xff) as u8,
        ((n >> 24) & 0xff) as u8,
        ((n >> 32) & 0xff) as u8,
        ((n >> 40) & 0xff) as u8,
        ((n >> 48) & 0xff) as u8,
        ((n >> 56) & 0xff) as u8,
    ]
}

/// The number carried by eight little-endian bytes.
pub open spec fn from_le64(
    b0: u8,
    b1: u8,
    b2: u8,
    b3: u8,
    b4: u8,
    b5: u8,
    b6: u8,
    b7: u8,
) -> u64 {
    (b0 as u64) | ((b1 as u64) << 8) | ((b2 as u64) << 16) | ((b3 as u64) << 24) | ((b4 as u64)
        << 32) | ((b5 as u64) << 40) | ((b6 as u64) << 48) | ((b7 as u64) << 56)
}

/// Reading back the four bytes of a number gives the number.
pub proof fn lemma_le32_roundtrip(n: u32)
    ensures
        from_le32(le32(n)[0], le32(n)[1], le32(n)[2], le32(n)[3]) == n,
{
    assert((((n & 0xff) as u8) as u32) | (((((n >> 8) & 0xff) as u8) as u32) << 8) | (((((n >> 16)
        & 0xff) as u8) as u32) << 16) | (((((n >> 24) & 0xff) as u8) as u32) << 24) == n)
        by (bit_vector);
}

/// Reading back the eight bytes of a number gives the number.
pub proof fn lemma_le64_roundtrip(n: u64)
    ensures
        from_le64(
            le64(n)[0],
            le64(n)[1],
            le64(n)[2],
            le64(n)[3],
            le64(n)[4],
            le64(n)[5],
            le64(n)[6],
            le64(n)[7],
        ) == n,
{
    assert((((n & 0xff) as u8) as u64) | (((((n >> 8) & 0xff) as u8) as u64) << 8) | (((((n >> 16)
        & 0xff) as u8) as u64) << 16) | (((((n >> 24) & 0xff) as u8) as u64) << 24) | (((((n >> 32)
        & 0xff) as u8) as u64) << 32) | (((((n >> 40) & 0xff) as u8) as u64) << 40) | (((((n >> 48)
        & 0xff) as u8) as u64) << 48) | (((((n >> 56) & 0xff) as u8) as u64) << 56) == n)
        by (bit_vector);
}

// ----------------------------------------------------------------------
// Cursor decoders (spec)

/// Read a 32-bit number at `pos`.
#[verifier::opaque]
pub open spec fn dec_u32(b: Seq<u8>, pos: int) -> Option<(u32, int)> {
    if 0 <= pos && pos + 4 <= b.len() {
        Some((from_le32(b[pos], b[pos + 1], b[pos + 2], b[pos + 3]), pos + 4))
    } else {
        None
    }
}

/// Read a 64-bit number at `pos`.
#[verifier::opaque]
pub open spec fn dec_u64(b: Seq<u8>, pos: int) -> Option<(u64, int)> {
    if 0 <= pos && pos + 8 <= b.len() {
        Some(
            (
                from_le64(
                    b[pos],
                    b[pos + 1],
                    b[pos + 2],
                    b[pos + 3],
                    b[pos + 4],
                    b[pos + 5],
                    b[pos + 6],
                    b[pos + 7],
                ),
                pos + 8,
            ),
        )
    } else {
        None
    }
}

/// A length-prefixed byte string.
pub open spec fn enc_bytes(data: Seq<u8>) -> Seq<u8> {
    le32(data.len() as u32) + data
}

/// Read a length-prefixed byte string at `pos`.
#[verifier::opaque]
pub open spec fn dec_bytes(b: Seq<u8>, pos: int) -> Option<(Seq<u8>, int)> {
    match dec_u32(b, pos) {
        Some((len, p)) => if p + len <= b.len() {
            Some((b.subrange(p, p + len), p + len))
        } else {
            None
        },
        None => None,
    }
}

/// A boolean as one byte.
pub open spec fn enc_bool(v: bool) -> Seq<u8> {
    seq![
        if v {
            1u8
        } else {
            0u8
        },
    ]
}

/// Read a boolean at `pos`; bytes other than 0 and 1 are refused.
#[verifier::opaque]
pub open spec fn dec_bool(b: Seq<u8>, pos: int) -> Option<(bool, int)> {
    if 0 <= pos && pos + 1 <= b.len() {
        if b[pos] == 1 {
            Some((true, pos + 1))
        } else if b[pos] == 0 {
            Some((false, pos + 1))
        } else {
            None
        }
    } else {
        None
    }
}

// ----------------------------------------------------------------------
// Decoding what was encoded

/// A 32-bit number reads back from wherever its encoding stands.
pub proof fn lemma_dec_u32_of_enc(prefix: Seq<u8>, n: u32, rest: Seq<u8>)
    ensures
        dec_u32(prefix + le32(n) + rest, prefix.len() as int) == Some(
            (n, prefix.len() + 4int),
        ),
{
    reveal(dec_u32);
    let b = prefix + le32(n) + rest;
    let pos = prefix.len() as int;
    assert(b[pos] == le32(n)[0] && b[pos + 1] == le32(n)[1] && b[pos + 2] == le32(n)[2] && b[pos
        + 3] == le32(n)[3]);
    lemma_le32_roundtrip(n);
}

/// A 64-bit number reads back from wherever its encoding stands.
pub proof fn lemma_dec_u64_of_enc(prefix: Seq<u8>, n: u64, rest: Seq<u8>)
    ensures
        dec_u64(prefix + le64(n) + rest, prefix.len() as int) == Some(
            (n, prefix.len() + 8int),
        ),
{
    reveal(dec_u64);
    let b = prefix + le64(n) + rest;
    let pos = prefix.len() as int;
    assert(b[pos] == le64(n)[0] && b[pos + 1] == le64(n)[1] && b[pos + 2] == le64(n)[2] && b[pos
        + 3] == le64(n)[3] && b[pos + 4] == le64(n)[4] && b[pos + 5] == le64(n)[5] && b[pos + 6]
        == le64(n)[6] && b[pos + 7] == le64(n)[7]);
    lemma_le64_roundtrip(n);
}

/// A byte string reads back from wherever its encoding stands.
pub proof fn lemma_dec_bytes_of_enc(prefix: Seq<u8>, data: Seq<u8>, rest: Seq<u8>)
    requires
        data.len() <= u32::MAX,
    ensures
        dec_bytes(prefix + enc_bytes(data) + rest, prefix.len() as int) == Some(
            (data, prefix.len() + 4 + data.len() as int),
        ),
{
    reveal(dec_u32);
    reveal(dec_bytes);
    let b = prefix + enc_bytes(data) + rest;
    let pos = prefix.len() as int;
    let n = data.len() as u32;
    assert(prefix + enc_bytes(data) + rest =~= prefix + le32(n) + (data + rest));
    lemma_dec_u32_of_enc(prefix, n, data + rest);
    assert(b.subrange(pos + 4, pos + 4 + n as int) =~= data);
}

/// A boolean reads back from wherever its encoding stands.
pub proof fn lemma_dec_bool_of_enc(prefix: Seq<u8>, v: bool, rest: Seq<u8>)
    ensures
        dec_bool(prefix + enc_bool(v) + rest, prefix.len() as int) == Some(
            (v, prefix.len() + 1int),
        ),
{
    reveal(dec_bool);
    let b = prefix + enc_bool(v) + rest;
    assert(b[prefix.len() as int] == enc_bool(v)[0]);
}

/// Left-associate a three-part tail.
pub proof fn lemma_flatten3(base: Seq<u8>, s1: Seq<u8>, s2: Seq<u8>, s3: Seq<u8>)
    ensures
        base + (s1 + s2 + s3) == ((base + s1) + s2) + s3,
{
    vstd::seq_lib::lemma_concat_associative(base, s1 + s2, s3);
    vstd::seq_lib::lemma_concat_associative(base, s1, s2);
}

/// Left-associate a six-part tail.
pub proof fn lemma_flatten6(
    base: Seq<u8>,
    s1: Seq<u8>,
    s2: Seq<u8>,
    s3: Seq<u8>,
    s4: Seq<u8>,
    s5: Seq<u8>,
    s6: Seq<u8>,
)
    ensures
        base + (s1 + s2 + s3 + s4 + s5 + s6) == (((((base + s1) + s2) + s3) + s4) + s5) + s6,
{
    vstd::seq_lib::lemma_concat_associative(base, s1 + s2 + s3 + s4 + s5, s6);
    vstd::seq_lib::lemma_concat_associative(base, s1 + s2 + s3 + s4, s5);
    vstd::seq_lib::lemma_concat_associative(base, s1 + s2 + s3, s4);
    vstd::seq_lib::lemma_concat_associative(base, s1 + s2, s3);
    vstd::seq_lib::lemma_concat_associative(base, s1, s2);
}

// ----------------------------------------------------------------------
// Executable encoders and decoders

/// Append a 32-bit number.
pub fn put_u32(buf: &mut Vec<u8>, n: u32)
    ensures
        final(buf)@ == old(buf)@ + le32(n),
{
    buf.push((n & 0xff) as u8);
    buf.push(((n >> 8) & 0xff) as u8);
    buf.push(((n >> 16) & 0xff) as u8);
    buf.push(((n >> 24) & 0xff) as u8);
    proof {
        assert(buf@ =~= old(buf)@ + le32(n));
    }
}

/// Append a 64-bit number.
pub fn put_u64(buf: &mut Vec<u8>, n: u64)
    ensures
        final(buf)@ == old(buf)@ + le64(n),
{
    buf.push((n & 0xff) as u8);
    buf.push(((n >> 8) & 0xff) as u8);
    buf.push(((n >> 16) & 0xff) as u8);
    buf.push(((n >> 24) & 0xff) as u8);
    buf.push(((n >> 32) & 0xff) as u8);
    buf.push(((n >> 40) & 0xff) as u8);
    buf.push(((n >> 48) & 0xff) as u8);
    buf.push(((n >> 56) & 0xff) as u8);
    proof {
        assert(buf@ =~= old(buf)@ + le64(n));
    }
}

/// Append a length-prefixed byte string.
pub fn put_bytes(buf: &mut Vec<u8>, data: &[u8])
    requires
        data@.len() <= u32::MAX,
    ensures
        final(buf)@ == old(buf)@ + enc_bytes(data@),
{
    put_u32(buf, data.len() as u32);
    buf.extend_from_slice(data);
    proof {
        assert(buf@ =~= old(buf)@ + enc_bytes(data@));
    }
}

/// Append a boolean.
pub fn put_bool(buf: &mut Vec<u8>, v: bool)
    ensures
        final(buf)@ == old(buf)@ + enc_bool(v),
{
    buf.push(
        if v {
            1u8
        } else {
            0u8
        },
    );
    proof {
        assert(buf@ =~= old(buf)@ + enc_bool(v));
    }
}

/// Read a 32-bit number.
pub fn read_u32(buf: &[u8], pos: usize) -> (r: Option<(u32, usize)>)
    requires
        buf@.len() <= usize::MAX - 8,
    ensures
        match r {
            Some((n, p)) => dec_u32(buf@, pos as int) == Some((n, p as int)),
            None => dec_u32(buf@, pos as int) is None,
        },
{
    proof {
        reveal(dec_u32);
    }
    if pos <= buf.len() && buf.len() - pos >= 4 {
        let n = (buf[pos] as u32) | ((buf[pos + 1] as u32) << 8) | ((buf[pos + 2] as u32) << 16) | (
        (buf[pos + 3] as u32) << 24);
        Some((n, pos + 4))
    } else {
        None
    }
}

/// Read a 64-bit number.
pub fn read_u64(buf: &[u8], pos: usize) -> (r: Option<(u64, usize)>)
    requires
        buf@.len() <= usize::MAX - 8,
    ensures
        match r {
            Some((n, p)) => dec_u64(buf@, pos as int) == Some((n, p as int)),
            None => dec_u64(buf@, pos as int) is None,
        },
{
    proof {
        reveal(dec_u64);
    }
    if pos <= buf.len() && buf.len() - pos >= 8 {
        let n = (buf[pos] as u64) | ((buf[pos + 1] as u64) << 8) | ((buf[pos + 2] as u64) << 16) | (
        (buf[pos + 3] as u64) << 24) | ((buf[pos + 4] as u64) << 32) | ((buf[pos + 5] as u64) << 40)
            | ((buf[pos + 6] as u64) << 48) | ((buf[pos + 7] as u64) << 56);
        Some((n, pos + 8))
    } else {
        None
    }
}

/// Read a length-prefixed byte string.
pub fn read_bytes(buf: &[u8], pos: usize) -> (r: Option<(Vec<u8>, usize)>)
    requires
        buf@.len() <= usize::MAX - 8,
    ensures
        match r {
            Some((data, p)) => dec_bytes(buf@, pos as int) == Some((data@, p as int)),
            None => dec_bytes(buf@, pos as int) is None,
        },
{
    proof {
        reveal(dec_bytes);
    }
    match read_u32(buf, pos) {
        Some((len, p)) => {
            let len = len as usize;
            if len <= buf.len() && p <= buf.len() - len {
                let mut data: Vec<u8> = Vec::new();
                data.extend_from_slice(&buf[p..p + len]);
                proof {
                    assert(data@ =~= buf@.subrange(p as int, p + len as int));
                }
                Some((data, p + len))
            } else {
                None
            }
        },
        None => None,
    }
}

/// Read a boolean.
pub fn read_bool(buf: &[u8], pos: usize) -> (r: Option<(bool, usize)>)
    requires
        buf@.len() <= usize::MAX - 8,
    ensures
        match r {
            Some((v, p)) => dec_bool(buf@, pos as int) == Some((v, p as int)),
            None => dec_bool(buf@, pos as int) is None,
        },
{
    proof {
        reveal(dec_bool);
    }
    if pos < buf.len() {
        if buf[pos] == 1 {
            Some((true, pos + 1))
        } else if buf[pos] == 0 {
            Some((false, pos + 1))
        } else {
            None
        }
    } else {
        None
    }
}

} // verus!

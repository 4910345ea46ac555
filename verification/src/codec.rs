//! Primitives of the "ND" record format: little-endian scalar coding, the
//! self-describing header (magic, version, element-type tag, rank, extents),
//! and the error kinds a malformed record can produce.

use vstd::prelude::*;
use vstd::arithmetic::div_mod::{lemma_fundamental_div_mod, lemma_mod_bound};
use vstd::arithmetic::mul::lemma_mul_inequality;

verus! {

/// First magic byte of every record: `'N'`.
pub const MAGIC0: u8 = 0x4e;

/// Second magic byte of every record: `'D'`.
pub const MAGIC1: u8 = 0x44;

/// The only format version this library reads or writes.
pub const FORMAT_VERSION: u8 = 0;

/// Element-type tag reserved for bit-packed boolean payloads, distinct from
/// every dense element tag.
pub const BIT_PACKED_TAG: u8 = 255;

/// Why a byte sequence failed to deserialize.  Header faults are reported
/// before any payload storage is allocated.
#[derive(Clone, Copy, Debug, PartialEq, Eq, Structural)]
pub enum CodecError {
    /// The first two bytes are not `'N'`, `'D'`.
    BadMagic,
    /// The version byte differs from `FORMAT_VERSION`.
    BadVersion,
    /// The element-type tag differs from the type being deserialized.
    BadElemType,
    /// The rank word differs from the target rank.
    BadRank,
    /// The extents describe more elements than this address space can hold.
    InvalidShape,
    /// The input ends before the header or the payload is complete.
    Truncated,
}

/// The four little-endian bytes of `x`.
pub open spec fn spec_le32(x: u32) -> Seq<u8> {
    seq![
        (x & 0xff) as u8,
        ((x >> 8) & 0xff) as u8,
        ((x >> 16) & 0xff) as u8,
        ((x >> 24) & 0xff) as u8,
    ]
}

/// The value whose little-endian bytes are `b`.
pub open spec fn spec_le32_decode(b: Seq<u8>) -> u32
    recommends
        b.len() == 4,
{
    (b[0] as u32) | ((b[1] as u32) << 8) | ((b[2] as u32) << 16) | ((b[3] as u32) << 24)
}

pub proof fn lemma_le32_round_trip(x: u32)
    ensures
        spec_le32_decode(spec_le32(x)) == x,
{
    assert(((x & 0xff) as u8 as u32) | ((((x >> 8) & 0xff) as u8 as u32) << 8) | ((((x >> 16)
        & 0xff) as u8 as u32) << 16) | ((((x >> 24) & 0xff) as u8 as u32) << 24) == x)
        by (bit_vector);
}

/// The eight little-endian bytes of `x`.
pub open spec fn spec_le64(x: u64) -> Seq<u8> {
    seq![
        (x & 0xff) as u8,
        ((x >> 8) & 0xff) as u8,
        ((x >> 16) & 0xff) as u8,
        ((x >> 24) & 0xff) as u8,
        ((x >> 32) & 0xff) as u8,
        ((x >> 40) & 0xff) as u8,
        ((x >> 48) & 0xff) as u8,
        ((x >> 56) & 0xff) as u8,
    ]
}

/// The value whose little-endian bytes are `b`.
pub open spec fn spec_le64_decode(b: Seq<u8>) -> u64
    recommends
        b.len() == 8,
{
    (b[0] as u64) | ((b[1] as u64) << 8) | ((b[2] as u64) << 16) | ((b[3] as u64) << 24) | ((
    b[4] as u64) << 32) | ((b[5] as u64) << 40) | ((b[6] as u64) << 48) | ((b[7] as u64) << 56)
}

pub proof fn lemma_le64_round_trip(x: u64)
    ensures
        spec_le64_decode(spec_le64(x)) == x,
{
    assert(((x & 0xff) as u8 as u64) | ((((x >> 8) & 0xff) as u8 as u64) << 8) | ((((x >> 16)
        & 0xff) as u8 as u64) << 16) | ((((x >> 24) & 0xff) as u8 as u64) << 24) | ((((x >> 32)
        & 0xff) as u8 as u64) << 32) | ((((x >> 40) & 0xff) as u8 as u64) << 40) | ((((x >> 48)
        & 0xff) as u8 as u64) << 48) | ((((x >> 56) & 0xff) as u8 as u64) << 56) == x)
        by (bit_vector);
}

/// Appends the four little-endian bytes of `x`.
pub fn push_le32(out: &mut Vec<u8>, x: u32)
    ensures
        final(out)@ == old(out)@ + spec_le32(x),
{
    out.push((x & 0xff) as u8);
    out.push(((x >> 8) & 0xff) as u8);
    out.push(((x >> 16) & 0xff) as u8);
    out.push(((x >> 24) & 0xff) as u8);
    proof {
        assert(out@ =~= old(out)@ + spec_le32(x));
    }
}

/// Appends the eight little-endian bytes of `x`.
pub fn push_le64(out: &mut Vec<u8>, x: u64)
    ensures
        final(out)@ == old(out)@ + spec_le64(x),
{
    out.push((x & 0xff) as u8);
    out.push(((x >> 8) & 0xff) as u8);
    out.push(((x >> 16) & 0xff) as u8);
    out.push(((x >> 24) & 0xff) as u8);
    out.push(((x >> 32) & 0xff) as u8);
    out.push(((x >> 40) & 0xff) as u8);
    out.push(((x >> 48) & 0xff) as u8);
    out.push(((x >> 56) & 0xff) as u8);
    proof {
        assert(out@ =~= old(out)@ + spec_le64(x));
    }
}

/// Reads the little-endian value of `bytes[off .. off + 4]`.
pub fn read_le32(bytes: &[u8], off: usize) -> (r: u32)
    requires
        off + 4 <= bytes@.len(),
    ensures
        r == spec_le32_decode(bytes@.subrange(off as int, off + 4)),
{
    let b0 = bytes[off];
    let b1 = bytes[off + 1];
    let b2 = bytes[off + 2];
    let b3 = bytes[off + 3];
    proof {
        let s = bytes@.subrange(off as int, off + 4);
        assert(s[0] == bytes@[off as int]);
        assert(s[1] == bytes@[off + 1]);
        assert(s[2] == bytes@[off + 2]);
        assert(s[3] == bytes@[off + 3]);
    }
    (b0 as u32) | ((b1 as u32) << 8) | ((b2 as u32) << 16) | ((b3 as u32) << 24)
}

/// Reads the little-endian value of `bytes[off .. off + 8]`.
pub fn read_le64(bytes: &[u8], off: usize) -> (r: u64)
    requires
        off + 8 <= bytes@.len(),
    ensures
        r == spec_le64_decode(bytes@.subrange(off as int, off + 8)),
{
    let b0 = bytes[off];
    let b1 = bytes[off + 1];
    let b2 = bytes[off + 2];
    let b3 = bytes[off + 3];
    let b4 = bytes[off + 4];
    let b5 = bytes[off + 5];
    let b6 = bytes[off + 6];
    let b7 = bytes[off + 7];
    proof {
        let s = bytes@.subrange(off as int, off + 8);
        assert(s[0] == bytes@[off as int]);
        assert(s[1] == bytes@[off + 1]);
        assert(s[2] == bytes@[off + 2]);
        assert(s[3] == bytes@[off + 3]);
        assert(s[4] == bytes@[off + 4]);
        assert(s[5] == bytes@[off + 5]);
        assert(s[6] == bytes@[off + 6]);
        assert(s[7] == bytes@[off + 7]);
    }
    (b0 as u64) | ((b1 as u64) << 8) | ((b2 as u64) << 16) | ((b3 as u64) << 24) | ((b4 as u64)
        << 32) | ((b5 as u64) << 40) | ((b6 as u64) << 48) | ((b7 as u64) << 56)
}

/// The first eight header bytes shared by every rank: the packed
/// magic/version/tag word, then the little-endian rank.
pub open spec fn spec_header_prefix(id: u8, rank: u32) -> Seq<u8> {
    seq![MAGIC0, MAGIC1, FORMAT_VERSION, id] + spec_le32(rank)
}

/// The full header of a rank-2 record with extents `e0`, `e1`.
pub open spec fn spec_header2(id: u8, e0: u64, e1: u64) -> Seq<u8> {
    spec_header_prefix(id, 2) + spec_le64(e0) + spec_le64(e1)
}

/// The full header of a rank-3 record with extents `e0`, `e1`, `e2`.
pub open spec fn spec_header3(id: u8, e0: u64, e1: u64, e2: u64) -> Seq<u8> {
    spec_header_prefix(id, 3) + spec_le64(e0) + spec_le64(e1) + spec_le64(e2)
}

/// The outcome of validating the first eight bytes of a record against the
/// expected element-type tag and rank, checks in this order: length, magic,
/// version, tag, rank.
pub open spec fn spec_check_prefix(b: Seq<u8>, id: u8, rank: u32) -> Result<(), CodecError> {
    if b.len() < 8 {
        Err(CodecError::Truncated)
    } else if b[0] != MAGIC0 || b[1] != MAGIC1 {
        Err(CodecError::BadMagic)
    } else if b[2] != FORMAT_VERSION {
        Err(CodecError::BadVersion)
    } else if b[3] != id {
        Err(CodecError::BadElemType)
    } else if spec_le32_decode(b.subrange(4, 8)) != rank {
        Err(CodecError::BadRank)
    } else {
        Ok(())
    }
}

/// Validates the magic bytes, version byte, element-type tag and rank word
/// at the front of `bytes`.
pub fn check_prefix(bytes: &[u8], id: u8, rank: u32) -> (r: Result<(), CodecError>)
    ensures
        r == spec_check_prefix(bytes@, id, rank),
{
    if bytes.len() < 8 {
        return Err(CodecError::Truncated);
    }
    if bytes[0] != MAGIC0 || bytes[1] != MAGIC1 {
        return Err(CodecError::BadMagic);
    }
    if bytes[2] != FORMAT_VERSION {
        return Err(CodecError::BadVersion);
    }
    if bytes[3] != id {
        return Err(CodecError::BadElemType);
    }
    if read_le32(bytes, 4) != rank {
        return Err(CodecError::BadRank);
    }
    Ok(())
}

/// Appends the eight shared header bytes for tag `id` and rank `rank`.
pub fn push_header_prefix(out: &mut Vec<u8>, id: u8, rank: u32)
    ensures
        final(out)@ == old(out)@ + spec_header_prefix(id, rank),
{
    out.push(MAGIC0);
    out.push(MAGIC1);
    out.push(FORMAT_VERSION);
    out.push(id);
    push_le32(out, rank);
    proof {
        assert(out@ =~= old(out)@ + spec_header_prefix(id, rank));
    }
}

/// Multiplies two counts, reporting `None` when the product does not fit in
/// this address space.
pub fn mul_to_usize(a: usize, b: usize) -> (r: Option<usize>)
    ensures
        match r {
            Some(p) => p as int == a * b,
            None => a * b > usize::MAX,
        },
{
    if b == 0 {
        proof {
            assert(a * 0 == 0) by (nonlinear_arith);
        }
        Some(0)
    } else if a <= usize::MAX / b {
        proof {
            let m = usize::MAX as int;
            let bi = b as int;
            lemma_fundamental_div_mod(m, bi);
            lemma_mod_bound(m, bi);
            lemma_mul_inequality(a as int, m / bi, bi);
            assert(bi * (m / bi) == (m / bi) * bi) by (nonlinear_arith);
        }
        Some(a * b)
    } else {
        proof {
            let m = usize::MAX as int;
            let bi = b as int;
            lemma_fundamental_div_mod(m, bi);
            lemma_mod_bound(m, bi);
            lemma_mul_inequality(m / bi + 1, a as int, bi);
            assert((m / bi + 1) * bi == (m / bi) * bi + bi) by (nonlinear_arith);
            assert(bi * (m / bi) == (m / bi) * bi) by (nonlinear_arith);
        }
        None
    }
}

/// Whether `n` windows of `w` bytes each fit at `bytes[start ..]` of a
/// buffer `blen` bytes long.
pub fn payload_fits(blen: usize, start: usize, n: usize, w: usize) -> (r: bool)
    requires
        start <= blen,
        w >= 1,
    ensures
        r <==> start + n * w <= blen,
{
    let avail = blen - start;
    let fits = n <= avail / w;
    proof {
        let av = avail as int;
        let wi = w as int;
        lemma_fundamental_div_mod(av, wi);
        lemma_mod_bound(av, wi);
        assert(wi * (av / wi) == (av / wi) * wi) by (nonlinear_arith);
        if n <= avail / w {
            lemma_mul_inequality(n as int, av / wi, wi);
        } else {
            lemma_mul_inequality(av / wi + 1, n as int, wi);
            assert((av / wi + 1) * wi == (av / wi) * wi + wi) by (nonlinear_arith);
        }
    }
    fits
}

} // verus!

//! The bit-packed rank-3 boolean array: one bit per element inside 64-bit
//! words, expansion to and contraction from byte-per-element dense arrays,
//! and the bit-packed "ND" record coding under the reserved tag.

use vstd::prelude::*;
use crate::codec::{
    spec_header3, spec_le64_decode, spec_check_prefix, CodecError, check_prefix, read_le64,
    push_header_prefix, push_le64, payload_fits, BIT_PACKED_TAG,
};
use crate::elem::{
    FixedBytes, spec_encode_elems, spec_decode_elems, lemma_encode_elems_len,
    lemma_decode_encode_elems, write_payload, read_payload,
};
use crate::shape::Shape;
use crate::array3::{Array3d, Array3dViewMut};
use vstd::arithmetic::div_mod::{
    lemma_fundamental_div_mod, lemma_fundamental_div_mod_converse, lemma_mod_bound,
};

verus! {

/// How many 64-bit words hold `n` one-bit elements.
pub open spec fn spec_raw_len(n: int) -> int {
    (n + 63) / 64
}

/// Bit `i` of a word buffer: bit `i % 64` of word `i / 64`.
pub open spec fn spec_bit(words: Seq<u64>, i: int) -> bool {
    (words[i / 64] >> ((i % 64) as u64)) & 1u64 == 1u64
}

/// The byte expansion of `n` packed bits: the sentinel where the bit is
/// set, zero where it is clear.
pub open spec fn spec_expand(words: Seq<u64>, n: int, nonzero_value: u8) -> Seq<u8> {
    Seq::new(n as nat, |i: int| if spec_bit(words, i) { nonzero_value } else { 0u8 })
}

proof fn lemma_bit_of_zero(t: u64)
    requires
        t < 64,
    ensures
        (0u64 >> t) & 1u64 == 0u64,
{
    assert((0u64 >> t) & 1u64 == 0u64) by (bit_vector);
}

proof fn lemma_bit_of_set(w: u64, s: u64, t: u64)
    requires
        s < 64,
        t < 64,
    ensures
        t == s ==> ((w | (1u64 << s)) >> t) & 1u64 == 1u64,
        t != s ==> ((w | (1u64 << s)) >> t) & 1u64 == (w >> t) & 1u64,
{
    assert(((w | (1u64 << s)) >> s) & 1u64 == 1u64) by (bit_vector)
        requires s < 64;
    assert(t != s ==> ((w | (1u64 << s)) >> t) & 1u64 == (w >> t) & 1u64) by (bit_vector)
        requires s < 64, t < 64;
}

/// `n` bits occupy at least `n` positions among `raw_len` words.
proof fn lemma_raw_len_covers(n: int)
    requires
        0 <= n,
    ensures
        spec_raw_len(n) >= 0,
        n <= 64 * spec_raw_len(n),
{
    lemma_fundamental_div_mod(n + 63, 64);
    lemma_mod_bound(n + 63, 64);
}

/// The word index of every bit below `n` lies below `raw_len(n)`.
proof fn lemma_bit_word_index(n: int, i: int)
    requires
        0 <= i < n,
    ensures
        0 <= i / 64 < spec_raw_len(n),
        0 <= i % 64 < 64,
    decreases 0int,
{
    lemma_fundamental_div_mod(i, 64);
    lemma_mod_bound(i, 64);
    lemma_raw_len_covers(n);
    assert(i / 64 < spec_raw_len(n)) by {
        if i / 64 >= spec_raw_len(n) {
            assert(i >= 64 * (i / 64));
            assert(64 * (i / 64) >= 64 * spec_raw_len(n)) by (nonlinear_arith)
                requires i / 64 >= spec_raw_len(n);
        }
    }
}

/// Computes `spec_raw_len(len)` without intermediate overflow.
fn ceil_div64(len: usize) -> (r: usize)
    ensures
        r as int == spec_raw_len(len as int),
        8 * r + 32 <= usize::MAX,
{
    let q = len / 64;
    let rem = len % 64;
    proof {
        lemma_fundamental_div_mod(len as int, 64);
        lemma_mod_bound(len as int, 64);
        if rem == 0 {
            lemma_fundamental_div_mod_converse(len + 63, 64, q as int, 63);
        } else {
            lemma_fundamental_div_mod_converse(len + 63, 64, q + 1, rem - 1);
        }
        assert(64 * (q as int) <= len);
        assert(8 * (q as int + 1) + 32 <= usize::MAX) by (nonlinear_arith)
            requires 64 * (q as int) <= len, len <= usize::MAX, usize::MAX >= 65535;
    }
    if rem == 0 {
        q
    } else {
        q + 1
    }
}

/// An owning bit-packed rank-3 boolean array: `raw_len` 64-bit words
/// holding one bit per element of the bound's box, in row-major order.
/// Bits past `bound.len()` in the last word are unspecified and ignored.
pub struct BitArray3d {
    data: Vec<u64>,
    bound: (usize, usize, usize),
    raw_len: usize,
}

impl BitArray3d {
    /// The packed words.
    pub closed spec fn spec_words(&self) -> Seq<u64> {
        self.data@
    }

    pub closed spec fn spec_bound(&self) -> (usize, usize, usize) {
        self.bound
    }

    pub closed spec fn spec_raw_len(&self) -> int {
        self.raw_len as int
    }

    /// The word buffer always holds exactly `ceil(bound.len() / 64)` words.
    pub open spec fn wf(&self) -> bool {
        self.spec_raw_len() == spec_raw_len(self.spec_bound().spec_len())
        && self.spec_words().len() == self.spec_raw_len()
        && self.spec_bound().spec_len() <= usize::MAX
    }

    pub fn bound(&self) -> (r: (usize, usize, usize))
        ensures
            r == self.spec_bound(),
    {
        self.bound
    }

    /// The stride of the dense layout this array packs: always the bound's
    /// least stride.
    pub fn stride(&self) -> (r: (usize, usize))
        ensures
            r == self.spec_bound().spec_least_stride(),
    {
        self.bound.to_least_stride()
    }

    /// Packs a tightly packed byte array: each nonzero byte becomes a set
    /// bit, each zero byte a clear bit, at the byte's row-major index.
    /// Bits past the element count are left clear.
    pub fn from_byte_array(arr: &Array3d<u8>) -> (r: BitArray3d)
        requires
            arr.wf(),
        ensures
            r.wf(),
            r.spec_bound() == arr.spec_bound(),
            forall|i: int|
                0 <= i < arr.spec_bound().spec_len()
                    ==> spec_bit(r.spec_words(), i) == (arr.spec_data()[i] != 0),
    {
        let s = arr.as_slice();
        let len = s.len();
        proof {
            assert(len as int == arr.spec_bound().spec_len());
        }
        let raw_len = ceil_div64(len);
        let mut words: Vec<u64> = Vec::new();
        let mut p: usize = 0;
        while p < raw_len
            invariant
                p <= raw_len,
                words@ == Seq::new(p as nat, |j: int| 0u64),
            decreases raw_len - p,
        {
            words.push(0u64);
            proof {
                assert(words@ =~= Seq::new((p + 1) as nat, |j: int| 0u64));
            }
            p += 1;
        }
        proof {
            lemma_raw_len_covers(len as int);
            assert forall|j: int| 0 <= j < len implies !spec_bit(words@, j) by {
                lemma_bit_word_index(len as int, j);
                lemma_bit_of_zero((j % 64) as u64);
            }
        }
        let mut idx: usize = 0;
        while idx < len
            invariant
                idx <= len,
                len == s@.len(),
                s@ == arr.spec_data(),
                len as int == arr.spec_bound().spec_len(),
                words@.len() == raw_len,
                raw_len as int == spec_raw_len(len as int),
                forall|j: int| 0 <= j < idx ==> spec_bit(words@, j) == (s@[j] != 0),
                forall|j: int| idx <= j < len ==> !spec_bit(words@, j),
            decreases len - idx,
        {
            proof {
                lemma_bit_word_index(len as int, idx as int);
            }
            if s[idx] != 0 {
                let wi = idx / 64;
                let sh = (idx % 64) as u64;
                let old_w = words[wi];
                let new_w = old_w | (1u64 << sh);
                let ghost prev = words@;
                words[wi] = new_w;
                proof {
                    assert(words@ == prev.update(wi as int, new_w));
                    assert forall|j: int| 0 <= j < len implies spec_bit(words@, j) == (
                        if j == idx { true } else { spec_bit(prev, j) }
                    ) by {
                        lemma_bit_word_index(len as int, j);
                        lemma_fundamental_div_mod(j, 64);
                        lemma_fundamental_div_mod(idx as int, 64);
                        if j / 64 == wi {
                            lemma_bit_of_set(old_w, sh, (j % 64) as u64);
                            if j % 64 == sh {
                                assert(j == idx);
                            }
                        } else {
                            assert(words@[j / 64] == prev[j / 64]);
                        }
                    }
                }
            }
            idx += 1;
        }
        BitArray3d { data: words, bound: arr.bound(), raw_len }
    }

    /// Expands into a freshly allocated dense byte array: the sentinel
    /// where a bit is set, zero where it is clear.
    pub fn into_bytes(&self, nonzero_value: u8) -> (r: Array3d<u8>)
        requires
            self.wf(),
        ensures
            r.wf(),
            r.spec_bound() == self.spec_bound(),
            r.spec_data() == spec_expand(
                self.spec_words(),
                self.spec_bound().spec_len(),
                nonzero_value,
            ),
    {
        let bound = self.bound;
        let len = bound.len();
        let mut out: Vec<u8> = Vec::new();
        let mut idx: usize = 0;
        while idx < len
            invariant
                idx <= len,
                len as int == self.spec_bound().spec_len(),
                self.wf(),
                out@ == spec_expand(self.spec_words(), idx as int, nonzero_value),
            decreases len - idx,
        {
            proof {
                lemma_bit_word_index(len as int, idx as int);
            }
            let wi = idx / 64;
            let sh = (idx % 64) as u64;
            let w = self.data[wi];
            if (w >> sh) & 1u64 == 1u64 {
                out.push(nonzero_value);
            } else {
                out.push(0u8);
            }
            proof {
                assert(out@ =~= spec_expand(self.spec_words(), idx + 1, nonzero_value));
            }
            idx += 1;
        }
        Array3d::with_data(out, bound)
    }

    /// Expands into caller-supplied storage: writes the sentinel or zero at
    /// every window position of `output`, whose bound must equal this
    /// array's bound and whose stride must be that bound's least stride.
    pub fn write_bytes(&self, nonzero_value: u8, output: &mut Array3dViewMut<u8>)
        requires
            self.wf(),
            old(output).wf(),
            old(output).bound == self.spec_bound(),
            old(output).stride == self.spec_bound().spec_least_stride(),
        ensures
            final(output).off == old(output).off,
            final(output).bound == old(output).bound,
            final(output).stride == old(output).stride,
            final(old(output).data)@ == final(final(output).data)@,
            final(output).data@ == old(output).data@.subrange(0, old(output).off as int)
                + spec_expand(self.spec_words(), self.spec_bound().spec_len(), nonzero_value)
                + old(output).data@.subrange(
                old(output).off + self.spec_bound().spec_len(),
                old(output).data@.len() as int,
            ),
    {
        let dlen = output.data.len();
        let len = self.bound.len();
        let mut idx: usize = 0;
        while idx < len
            invariant
                idx <= len,
                len as int == self.spec_bound().spec_len(),
                self.wf(),
                dlen as int == output.data@.len(),
                output.off == old(output).off,
                output.bound == old(output).bound,
                output.stride == old(output).stride,
                output.data@.len() == old(output).data@.len(),
                old(output).off + len <= output.data@.len(),
                final(output.data)@ == final(old(output).data)@,
                forall|j: int|
                    0 <= j < idx ==> output.data@[old(output).off + j] == spec_expand(
                        self.spec_words(),
                        len as int,
                        nonzero_value,
                    )[j],
                forall|j: int|
                    0 <= j < output.data@.len() && !(old(output).off <= j < old(output).off + idx)
                        ==> output.data@[j] == old(output).data@[j],
            decreases len - idx,
        {
            proof {
                lemma_bit_word_index(len as int, idx as int);
            }
            let wi = idx / 64;
            let sh = (idx % 64) as u64;
            let w = self.data[wi];
            let v: u8 = if (w >> sh) & 1u64 == 1u64 {
                nonzero_value
            } else {
                0u8
            };
            let j = output.off + idx;
            output.data[j] = v;
            idx += 1;
        }
        proof {
            assert(output.data@ =~= old(output).data@.subrange(0, old(output).off as int)
                + spec_expand(self.spec_words(), self.spec_bound().spec_len(), nonzero_value)
                + old(output).data@.subrange(
                old(output).off + self.spec_bound().spec_len(),
                old(output).data@.len() as int,
            ));
        }
    }

    /// Exact byte length of the bit-packed record of `bound`: the rank-3
    /// header plus eight bytes per packed word.
    pub open spec fn spec_serial_size(bound: (usize, usize, usize)) -> int {
        32 + spec_raw_len(bound.spec_len()) * 8
    }

    pub fn serial_size(bound: (usize, usize, usize)) -> (r: usize)
        requires
            bound.spec_len() <= usize::MAX,
        ensures
            r as int == Self::spec_serial_size(bound),
    {
        let len = bound.len();
        let raw_len = ceil_div64(len);
        proof {
            assert(spec_raw_len(len as int) * 8 == 8 * raw_len);
        }
        32 + raw_len * 8
    }

    /// Appends the bit-packed record for this array: the rank-3 header
    /// under the reserved tag, the extents, then the full word buffer,
    /// exactly `serial_size(bound)` bytes in all.
    pub fn serialize(&self, out: &mut Vec<u8>)
        requires
            self.wf(),
        ensures
            final(out)@ == old(out)@ + spec_serialized_bits(self.spec_bound(), self.spec_words()),
            final(out)@.len() == old(out)@.len() + Self::spec_serial_size(self.spec_bound()),
    {
        push_header_prefix(out, BIT_PACKED_TAG, 3);
        push_le64(out, self.bound.0 as u64);
        push_le64(out, self.bound.1 as u64);
        push_le64(out, self.bound.2 as u64);
        write_payload(out, &self.data);
        proof {
            lemma_encode_elems_len::<u64>(self.data@);
            assert(out@ =~= old(out)@ + spec_serialized_bits(
                self.spec_bound(),
                self.spec_words(),
            ));
        }
    }

    /// Reads one bit-packed record from the front of `bytes`; bytes past
    /// the record are ignored.  The result mirrors `spec_parse_bits`
    /// exactly, fault for fault.
    pub fn deserialize(bytes: &[u8]) -> (r: Result<BitArray3d, CodecError>)
        ensures
            r matches Ok(a) ==> a.wf() && spec_parse_bits(bytes@) == Ok::<
                ((usize, usize, usize), Seq<u64>),
                CodecError,
            >((a.spec_bound(), a.spec_words())),
            r matches Err(e) ==> spec_parse_bits(bytes@) == Err::<
                ((usize, usize, usize), Seq<u64>),
                CodecError,
            >(e),
    {
        if let Err(e) = check_prefix(bytes, BIT_PACKED_TAG, 3) {
            return Err(e);
        }
        if bytes.len() < 32 {
            return Err(CodecError::Truncated);
        }
        let e0 = read_le64(bytes, 8);
        let e1 = read_le64(bytes, 16);
        let e2 = read_le64(bytes, 24);
        if e0 > usize::MAX as u64 || e1 > usize::MAX as u64 || e2 > usize::MAX as u64 {
            return Err(CodecError::InvalidShape);
        }
        let b0 = e0 as usize;
        let b1 = e1 as usize;
        let b2 = e2 as usize;
        let n: usize = if b0 == 0 || b1 == 0 || b2 == 0 {
            proof {
                assert(b0 as int * b1 * b2 == 0) by (nonlinear_arith)
                    requires b0 == 0 || b1 == 0 || b2 == 0;
            }
            0
        } else {
            let n01 = match crate::codec::mul_to_usize(b0, b1) {
                Some(p) => p,
                None => {
                    proof {
                        assert(b0 as int * b1 * b2 > usize::MAX) by (nonlinear_arith)
                            requires b0 as int * b1 > usize::MAX, b2 >= 1;
                    }
                    return Err(CodecError::InvalidShape);
                },
            };
            match crate::codec::mul_to_usize(n01, b2) {
                Some(p) => {
                    proof {
                        assert(n01 as int * b2 == b0 as int * b1 * b2) by (nonlinear_arith)
                            requires n01 as int == b0 as int * b1;
                    }
                    p
                },
                None => {
                    proof {
                        assert(n01 as int * b2 == b0 as int * b1 * b2) by (nonlinear_arith)
                            requires n01 as int == b0 as int * b1;
                    }
                    return Err(CodecError::InvalidShape);
                },
            }
        };
        let raw_len = ceil_div64(n);
        if !payload_fits(bytes.len(), 32, raw_len, 8) {
            return Err(CodecError::Truncated);
        }
        let data = read_payload::<u64>(bytes, 32, raw_len);
        let bound = (b0, b1, b2);
        Ok(BitArray3d { data, bound, raw_len })
    }
}

/// The bytes of the bit-packed record for words `words` under bound
/// `bound`.
pub open spec fn spec_serialized_bits(bound: (usize, usize, usize), words: Seq<u64>) -> Seq<u8> {
    spec_header3(BIT_PACKED_TAG, bound.0 as u64, bound.1 as u64, bound.2 as u64)
        + spec_encode_elems(words)
}

/// What a byte sequence holds when read as a bit-packed record: the bound
/// and the packed words, or the first fault found.
pub open spec fn spec_parse_bits(b: Seq<u8>) -> Result<
    ((usize, usize, usize), Seq<u64>),
    CodecError,
> {
    match spec_check_prefix(b, BIT_PACKED_TAG, 3) {
        Err(e) => Err(e),
        Ok(u) => {
            if b.len() < 32 {
                Err(CodecError::Truncated)
            } else {
                let e0 = spec_le64_decode(b.subrange(8, 16));
                let e1 = spec_le64_decode(b.subrange(16, 24));
                let e2 = spec_le64_decode(b.subrange(24, 32));
                if e0 > usize::MAX || e1 > usize::MAX || e2 > usize::MAX || e0 * e1 * e2
                    > usize::MAX {
                    Err(CodecError::InvalidShape)
                } else {
                    let raw = spec_raw_len((e0 * e1 * e2) as int);
                    if b.len() < 32 + raw * 8 {
                        Err(CodecError::Truncated)
                    } else {
                        Ok((
                            ((e0 as usize), (e1 as usize), (e2 as usize)),
                            spec_decode_elems::<u64>(b, 32, raw),
                        ))
                    }
                }
            }
        },
    }
}

/// Bit-packing round trip: expanding packed bits with a nonzero sentinel
/// restores any byte sequence whose elements were all either zero or that
/// same sentinel.
pub proof fn lemma_bit_round_trip(data: Seq<u8>, words: Seq<u64>, nonzero_value: u8)
    requires
        nonzero_value != 0,
        forall|i: int| 0 <= i < data.len() ==> data[i] == 0 || data[i] == nonzero_value,
        forall|i: int| 0 <= i < data.len() ==> spec_bit(words, i) == (data[i] != 0),
    ensures
        spec_expand(words, data.len() as int, nonzero_value) == data,
{
    assert(spec_expand(words, data.len() as int, nonzero_value) =~= data);
}


/// Serialization round trip for bit-packed records: parsing a serialized
/// record, with anything appended after it, yields exactly the bound and
/// packed words that were written.
pub proof fn lemma_round_trip_bits(
    bound: (usize, usize, usize),
    words: Seq<u64>,
    rest: Seq<u8>,
)
    requires
        words.len() == spec_raw_len(bound.spec_len()),
        bound.spec_len() <= usize::MAX,
    ensures
        spec_parse_bits(spec_serialized_bits(bound, words) + rest) == Ok::<
            ((usize, usize, usize), Seq<u64>),
            CodecError,
        >((bound, words)),
{
    let e0 = bound.0 as u64;
    let e1 = bound.1 as u64;
    let e2 = bound.2 as u64;
    let enc = spec_encode_elems(words);
    let b = spec_serialized_bits(bound, words) + rest;
    let n = bound.spec_len();
    let raw = spec_raw_len(n);
    lemma_encode_elems_len::<u64>(words);
    assert(raw >= 0);
    assert(b.len() == 32 + raw * 8 + rest.len());
    assert(b[0] == crate::codec::MAGIC0 && b[1] == crate::codec::MAGIC1 && b[2]
        == crate::codec::FORMAT_VERSION && b[3] == BIT_PACKED_TAG);
    assert(b.subrange(4, 8) =~= crate::codec::spec_le32(3));
    crate::codec::lemma_le32_round_trip(3);
    assert(spec_check_prefix(b, BIT_PACKED_TAG, 3) == Ok::<(), CodecError>(()));
    assert(b.subrange(8, 16) =~= crate::codec::spec_le64(e0));
    assert(b.subrange(16, 24) =~= crate::codec::spec_le64(e1));
    assert(b.subrange(24, 32) =~= crate::codec::spec_le64(e2));
    crate::codec::lemma_le64_round_trip(e0);
    crate::codec::lemma_le64_round_trip(e1);
    crate::codec::lemma_le64_round_trip(e2);
    assert(e0 * e1 * e2 == n);
    assert(b.subrange(32, 32 + raw * 8) =~= enc);
    lemma_decode_encode_elems::<u64>(b, 32, words);
    assert((e0 as usize) == bound.0 && (e1 as usize) == bound.1 && (e2 as usize) == bound.2);
}

} // verus!

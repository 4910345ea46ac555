//! The rank-2 dense array: an owning, tightly packed buffer with its bound
//! and stride, shared and exclusive whole-array views, a zero-filling
//! constructor, and the rank-2 "ND" record coding.

use vstd::prelude::*;
use crate::{Array, ArrayView, ArrayViewMut, ArrayZeroExt, NdArraySerialize};
use crate::codec::{
    spec_header2, spec_le32, spec_le64, spec_le64_decode, spec_check_prefix, CodecError,
    check_prefix, read_le64, push_header_prefix, push_le64, mul_to_usize, payload_fits,
    lemma_le32_round_trip, lemma_le64_round_trip, MAGIC0, MAGIC1, FORMAT_VERSION,
};
use crate::elem::{
    FixedBytes, SerialDataType, spec_encode_elems, spec_decode_elems, lemma_encode_elems_len,
    lemma_decode_encode_elems, write_payload, read_payload,
};
use crate::shape::Shape;

verus! {

/// An owning rank-2 array: a contiguous element buffer, its bound, and its
/// stride.  Every constructor produces a tightly packed array, so the
/// stride always equals the bound's least stride and the buffer holds
/// exactly `bound.len()` elements.
pub struct Array2d<T> where T: Copy {
    data: Vec<T>,
    bound: (usize, usize),
    stride: usize,
}

impl<T: Copy> Array2d<T> {
    /// The elements, in row-major order.
    pub closed spec fn spec_data(&self) -> Seq<T> {
        self.data@
    }

    pub closed spec fn spec_bound(&self) -> (usize, usize) {
        self.bound
    }

    pub closed spec fn spec_stride(&self) -> usize {
        self.stride
    }

    /// Owning arrays are always tightly packed.
    pub open spec fn wf(&self) -> bool {
        self.spec_stride() == self.spec_bound().spec_least_stride()
        && self.spec_data().len() == self.spec_bound().spec_len()
    }

    /// The whole buffer.
    pub fn as_slice(&self) -> (r: &[T])
        ensures
            r@ == self.spec_data(),
    {
        self.data.as_slice()
    }

    /// The whole buffer, writable; the bound and stride stay as they are.
    pub fn as_mut_slice(&mut self) -> (r: &mut [T])
        ensures
            r@ == old(self).spec_data(),
            final(self).spec_bound() == old(self).spec_bound(),
            final(self).spec_stride() == old(self).spec_stride(),
            final(self).spec_data() == final(r)@,
    {
        self.data.as_mut_slice()
    }

}

impl<'a, T: 'a + Copy> Array<'a, T, (usize, usize)> for Array2d<T> {
    type View = Array2dView<'a, T>;

    type ViewMut = Array2dViewMut<'a, T>;

    /// Borrows the whole array read-only.
    fn as_view(&'a self) -> (r: Array2dView<'a, T>)
        ensures
            r.spec_data() == self.spec_data(),
            r.spec_bound() == self.spec_bound(),
            r.spec_stride() == self.spec_stride(),
    {
        Array2dView { data: self.data.as_slice(), bound: self.bound, stride: self.stride }
    }

    /// Borrows the whole array writable.
    fn as_view_mut(&'a mut self) -> (r: Array2dViewMut<'a, T>)
        ensures
            r.data@ == old(self).spec_data(),
            r.bound == old(self).spec_bound(),
            r.stride == old(self).spec_stride(),
            final(self).spec_bound() == old(self).spec_bound(),
            final(self).spec_stride() == old(self).spec_stride(),
            final(self).spec_data() == final(r.data)@,
    {
        Array2dViewMut {
            data: self.data.as_mut_slice(),
            bound: self.bound,
            stride: self.stride,
        }
    }
}

/// A shared, read-only window over a rank-2 array's whole buffer.
pub struct Array2dView<'a, T> where T: Copy {
    data: &'a [T],
    bound: (usize, usize),
    stride: usize,
}

impl<'a, T: Copy> Array2dView<'a, T> {
    pub closed spec fn spec_data(&self) -> Seq<T> {
        self.data@
    }

    pub closed spec fn spec_bound(&self) -> (usize, usize) {
        self.bound
    }

    pub closed spec fn spec_stride(&self) -> usize {
        self.stride
    }

    /// The viewed elements.
    pub fn as_slice(&self) -> (r: &'a [T])
        ensures
            r@ == self.spec_data(),
    {
        self.data
    }
}

impl<'a, T: 'a + Copy> ArrayView<'a, T, (usize, usize)> for Array2dView<'a, T> {
    open spec fn spec_view_bound(&self) -> (usize, usize) {
        self.spec_bound()
    }

    open spec fn spec_view_stride(&self) -> usize {
        self.spec_stride()
    }

    fn bound(&self) -> (r: (usize, usize)) {
        self.bound
    }

    fn stride(&self) -> (r: usize) {
        self.stride
    }

    /// The logical element count, `bound().len()`, independent of stride.
    fn len(&self) -> (r: usize) {
        self.bound.len()
    }
}

/// An exclusive, writable window over a rank-2 array's whole buffer.  The
/// fields are public so that contracts can speak of the buffer's final
/// contents when the borrow expires.
pub struct Array2dViewMut<'a, T> where T: Copy {
    pub data: &'a mut [T],
    pub bound: (usize, usize),
    pub stride: usize,
}

impl<'a, T: 'a + Copy> ArrayViewMut<'a, T, (usize, usize)> for Array2dViewMut<'a, T> {
    open spec fn spec_view_bound(&self) -> (usize, usize) {
        self.bound
    }

    open spec fn spec_view_stride(&self) -> usize {
        self.stride
    }

    fn bound(&self) -> (r: (usize, usize)) {
        self.bound
    }

    fn stride(&self) -> (r: usize) {
        self.stride
    }

    /// The logical element count, `bound().len()`, independent of stride.
    fn len(&self) -> (r: usize) {
        self.bound.len()
    }
}

impl<'a, T: Copy> Array2dViewMut<'a, T> {
    /// The viewed elements, writable.
    pub fn as_mut_slice(self) -> (r: &'a mut [T])
        ensures
            r@ == old(self.data)@,
            final(r)@ == final(self.data)@,
    {
        self.data
    }
}

impl<T: SerialDataType> ArrayZeroExt<T, (usize, usize)> for Array2d<T> {
    /// Allocates a tightly packed array of `bound` with every element zero.
    fn zeros(bound: (usize, usize)) -> (r: Array2d<T>)
        ensures
            r.wf(),
            r.spec_bound() == bound,
            r.spec_data() == Seq::new(bound.spec_len() as nat, |i: int| T::spec_zero()),
    {
        let len = bound.len();
        let mut data: Vec<T> = Vec::new();
        let mut i: usize = 0;
        while i < len
            invariant
                i <= len,
                data@ == Seq::new(i as nat, |j: int| T::spec_zero()),
            decreases len - i,
        {
            data.push(T::zero());
            proof {
                assert(data@ =~= Seq::new((i + 1) as nat, |j: int| T::spec_zero()));
            }
            i += 1;
        }
        let stride = bound.to_least_stride();
        proof {
            assert(data@ =~= Seq::new(bound.spec_len() as nat, |j: int| T::spec_zero()));
        }
        Array2d { data, bound, stride }
    }
}

/// The bytes of the rank-2 record for elements `data` under bound `bound`.
pub open spec fn spec_serialized2<T: SerialDataType>(
    bound: (usize, usize),
    data: Seq<T>,
) -> Seq<u8> {
    spec_header2(T::spec_serial_id(), bound.0 as u64, bound.1 as u64) + spec_encode_elems(data)
}

/// What a byte sequence holds when read as a rank-2 record of element `T`:
/// the bound and the elements, or the first fault found.
pub open spec fn spec_parse2<T: SerialDataType>(b: Seq<u8>) -> Result<
    ((usize, usize), Seq<T>),
    CodecError,
> {
    match spec_check_prefix(b, T::spec_serial_id(), 2) {
        Err(e) => Err(e),
        Ok(u) => {
            if b.len() < 24 {
                Err(CodecError::Truncated)
            } else {
                let e0 = spec_le64_decode(b.subrange(8, 16));
                let e1 = spec_le64_decode(b.subrange(16, 24));
                if e0 > usize::MAX || e1 > usize::MAX || e0 * e1 > usize::MAX {
                    Err(CodecError::InvalidShape)
                } else {
                    let n = e0 * e1;
                    if b.len() < 24 + n * T::spec_width() {
                        Err(CodecError::Truncated)
                    } else {
                        Ok((((e0 as usize), (e1 as usize)), spec_decode_elems::<T>(b, 24, n as int)))
                    }
                }
            }
        },
    }
}

impl<T: SerialDataType> NdArraySerialize<T, (usize, usize)> for Array2d<T> {
    /// Header bytes plus one fixed-width coding per element.
    open spec fn spec_serial_size(bound: (usize, usize)) -> int {
        24 + bound.spec_len() * T::spec_width()
    }

    open spec fn spec_serial_wf(&self) -> bool {
        self.wf()
    }

    fn serial_size(bound: (usize, usize)) -> (r: usize) {
        proof {
            T::lemma_width_pos();
            assert(bound.spec_len() * T::spec_width() >= bound.spec_len() * 1
                && bound.spec_len() * 1 == bound.spec_len() && bound.spec_len() >= 0)
                by (nonlinear_arith)
                requires T::spec_width() >= 1;
        }
        let len = bound.len();
        let w = T::width();
        let payload = match mul_to_usize(len, w) {
            Some(p) => p,
            None => {
                proof {
                    assert(false);
                }
                0
            },
        };
        24 + payload
    }

    /// Appends the record for this array: header, extents, then every
    /// element's coding, exactly `spec_serial_size(bound)` bytes in all.
    fn serialize(&self, out: &mut Vec<u8>)
        ensures
            final(out)@ == old(out)@ + spec_serialized2::<T>(self.spec_bound(), self.spec_data()),
            final(out)@.len() == old(out)@.len() + Self::spec_serial_size(self.spec_bound()),
    {
        push_header_prefix(out, T::serial_id(), 2);
        push_le64(out, self.bound.0 as u64);
        push_le64(out, self.bound.1 as u64);
        write_payload(out, &self.data);
        proof {
            lemma_encode_elems_len::<T>(self.data@);
            assert(out@ =~= old(out)@ + spec_serialized2::<T>(
                self.spec_bound(),
                self.spec_data(),
            ));
        }
    }

    /// Reads one rank-2 record of element `T` from the front of `bytes`;
    /// bytes past the record are ignored.  The result mirrors
    /// `spec_parse2` exactly, fault for fault.
    fn deserialize(bytes: &[u8]) -> (r: Result<Array2d<T>, CodecError>)
        ensures
            r matches Ok(a) ==> a.wf() && spec_parse2::<T>(bytes@) == Ok::<
                ((usize, usize), Seq<T>),
                CodecError,
            >((a.spec_bound(), a.spec_data())),
            r matches Err(e) ==> spec_parse2::<T>(bytes@) == Err::<
                ((usize, usize), Seq<T>),
                CodecError,
            >(e),
    {
        if let Err(e) = check_prefix(bytes, T::serial_id(), 2) {
            return Err(e);
        }
        if bytes.len() < 24 {
            return Err(CodecError::Truncated);
        }
        let e0 = read_le64(bytes, 8);
        let e1 = read_le64(bytes, 16);
        if e0 > usize::MAX as u64 || e1 > usize::MAX as u64 {
            return Err(CodecError::InvalidShape);
        }
        let b0 = e0 as usize;
        let b1 = e1 as usize;
        let n = match mul_to_usize(b0, b1) {
            Some(n) => n,
            None => {
                return Err(CodecError::InvalidShape);
            },
        };
        let w = T::width();
        proof {
            T::lemma_width_pos();
        }
        if !payload_fits(bytes.len(), 24, n, w) {
            return Err(CodecError::Truncated);
        }
        let data = read_payload::<T>(bytes, 24, n);
        let bound = (b0, b1);
        let stride = bound.to_least_stride();
        Ok(Array2d { data, bound, stride })
    }
}


/// Serialization round trip for rank-2 records: parsing a serialized
/// record, with anything appended after it, yields exactly the bound and
/// elements that were written.
pub proof fn lemma_round_trip2<T: SerialDataType>(
    bound: (usize, usize),
    data: Seq<T>,
    rest: Seq<u8>,
)
    requires
        data.len() == bound.spec_len(),
        bound.spec_len() <= usize::MAX,
    ensures
        spec_parse2::<T>(spec_serialized2::<T>(bound, data) + rest) == Ok::<
            ((usize, usize), Seq<T>),
            CodecError,
        >((bound, data)),
{
    let id = T::spec_serial_id();
    let e0 = bound.0 as u64;
    let e1 = bound.1 as u64;
    let enc = spec_encode_elems(data);
    let b = spec_serialized2::<T>(bound, data) + rest;
    let w = T::spec_width();
    let n = bound.spec_len();
    T::lemma_width_pos();
    lemma_encode_elems_len::<T>(data);
    assert(n * w >= 0) by (nonlinear_arith)
        requires n >= 0, w >= 1;
    assert(b.len() == 24 + n * w + rest.len());
    assert(b[0] == MAGIC0 && b[1] == MAGIC1 && b[2] == FORMAT_VERSION && b[3] == id);
    assert(b.subrange(4, 8) =~= spec_le32(2));
    lemma_le32_round_trip(2);
    assert(spec_check_prefix(b, id, 2) == Ok::<(), CodecError>(()));
    assert(b.subrange(8, 16) =~= spec_le64(e0));
    assert(b.subrange(16, 24) =~= spec_le64(e1));
    lemma_le64_round_trip(e0);
    lemma_le64_round_trip(e1);
    assert(e0 * e1 == n);
    assert(b.subrange(24, 24 + n * w) =~= enc);
    lemma_decode_encode_elems::<T>(b, 24, data);
    assert((e0 as usize) == bound.0 && (e1 as usize) == bound.1);
}

} // verus!

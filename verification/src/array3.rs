//! The rank-3 dense array: an owning, tightly packed buffer with its bound
//! and stride, shared views, writable views that support sub-view windows
//! and bulk copy, and the rank-3 "ND" record coding.

use vstd::prelude::*;
use crate::{Array, ArrayView, ArrayViewMut, ArrayZeroExt, NdArraySerialize};
use crate::codec::{
    spec_header3, spec_le32, spec_le64, spec_le64_decode, spec_check_prefix, CodecError,
    check_prefix, read_le64, push_header_prefix, push_le64, mul_to_usize, payload_fits,
    lemma_le32_round_trip, lemma_le64_round_trip, MAGIC0, MAGIC1, FORMAT_VERSION,
};
use crate::elem::{
    FixedBytes, SerialDataType, spec_encode_elems, spec_decode_elems, lemma_encode_elems_len,
    lemma_decode_encode_elems, write_payload, read_payload,
};
use crate::shape::Shape;

verus! {

/// Why a bulk copy between views was refused.
#[derive(Clone, Copy, Debug, PartialEq, Eq, Structural)]
pub enum CopyError {
    /// The two views have different bounds.
    BoundMismatch,
    /// Both bounds agree but the layouts are not tightly packed with
    /// matching strides; strided copies are unsupported.
    StrideUnsupported,
}

/// An owning rank-3 array: a contiguous element buffer, its bound, and its
/// stride.  Every constructor produces a tightly packed array, so the
/// stride always equals the bound's least stride and the buffer holds
/// exactly `bound.len()` elements.
pub struct Array3d<T> where T: Copy {
    data: Vec<T>,
    bound: (usize, usize, usize),
    stride: (usize, usize),
}

impl<T: Copy> Array3d<T> {
    /// The elements, in row-major order.
    pub closed spec fn spec_data(&self) -> Seq<T> {
        self.data@
    }

    pub closed spec fn spec_bound(&self) -> (usize, usize, usize) {
        self.bound
    }

    pub closed spec fn spec_stride(&self) -> (usize, usize) {
        self.stride
    }

    /// Owning arrays are always tightly packed.
    pub open spec fn wf(&self) -> bool {
        self.spec_stride() == self.spec_bound().spec_least_stride()
        && self.spec_data().len() == self.spec_bound().spec_len()
    }

    /// Wraps an existing element buffer, which must hold exactly
    /// `bound.len()` elements, as a tightly packed array of `bound`.
    pub fn with_data(data: Vec<T>, bound: (usize, usize, usize)) -> (r: Array3d<T>)
        requires
            data@.len() == bound.spec_len(),
        ensures
            r.wf(),
            r.spec_bound() == bound,
            r.spec_data() == data@,
    {
        let stride = bound.to_least_stride();
        Array3d { data, bound, stride }
    }

    /// The whole buffer.
    pub fn as_slice(&self) -> (r: &[T])
        ensures
            r@ == self.spec_data(),
    {
        self.data.as_slice()
    }

    /// The whole buffer, writable; the bound and stride stay as they are.
    pub fn as_mut_slice(&mut self) -> (r: &mut [T])
        ensures
            r@ == old(self).spec_data(),
            final(self).spec_bound() == old(self).spec_bound(),
            final(self).spec_stride() == old(self).spec_stride(),
            final(self).spec_data() == final(r)@,
    {
        self.data.as_mut_slice()
    }

    pub fn bound(&self) -> (r: (usize, usize, usize))
        ensures
            r == self.spec_bound(),
    {
        self.bound
    }

    pub fn stride(&self) -> (r: (usize, usize))
        ensures
            r == self.spec_stride(),
    {
        self.stride
    }

}

impl<T: Copy> Clone for Array3d<T> {
    /// An independent array with the same bound, stride and elements.
    fn clone(&self) -> (r: Self)
        ensures
            r.spec_bound() == self.spec_bound(),
            r.spec_stride() == self.spec_stride(),
            r.spec_data() == self.spec_data(),
    {
        let n = self.data.len();
        let mut data: Vec<T> = Vec::new();
        let mut i: usize = 0;
        while i < n
            invariant
                i <= n,
                n == self.data@.len(),
                data@ == self.data@.take(i as int),
            decreases n - i,
        {
            data.push(self.data[i]);
            proof {
                assert(data@ =~= self.data@.take(i + 1));
            }
            i += 1;
        }
        proof {
            assert(self.data@.take(n as int) =~= self.data@);
        }
        Array3d { data, bound: self.bound, stride: self.stride }
    }
}

impl<'a, T: 'a + Copy> Array<'a, T, (usize, usize, usize)> for Array3d<T> {
    type View = Array3dView<'a, T>;

    type ViewMut = Array3dViewMut<'a, T>;

    /// Borrows the whole array read-only.
    fn as_view(&'a self) -> (r: Array3dView<'a, T>)
        ensures
            r.spec_data() == self.spec_data(),
            r.spec_bound() == self.spec_bound(),
            r.spec_stride() == self.spec_stride(),
            self.wf() ==> r.wf(),
    {
        Array3dView { data: self.data.as_slice(), bound: self.bound, stride: self.stride }
    }

    /// Borrows the whole array writable.
    fn as_view_mut(&'a mut self) -> (r: Array3dViewMut<'a, T>)
        ensures
            r.data@ == old(self).spec_data(),
            r.off == 0,
            r.bound == old(self).spec_bound(),
            r.stride == old(self).spec_stride(),
            final(self).spec_bound() == old(self).spec_bound(),
            final(self).spec_stride() == old(self).spec_stride(),
            final(self).spec_data() == final(r.data)@,
    {
        Array3dViewMut {
            data: self.data.as_mut_slice(),
            off: 0,
            bound: self.bound,
            stride: self.stride,
        }
    }
}

/// A shared, read-only window over a rank-3 array's whole buffer.
pub struct Array3dView<'a, T> where T: Copy {
    data: &'a [T],
    bound: (usize, usize, usize),
    stride: (usize, usize),
}

impl<'a, T: Copy> Array3dView<'a, T> {
    pub closed spec fn spec_data(&self) -> Seq<T> {
        self.data@
    }

    pub closed spec fn spec_bound(&self) -> (usize, usize, usize) {
        self.bound
    }

    pub closed spec fn spec_stride(&self) -> (usize, usize) {
        self.stride
    }

    /// Views handed out by an owner cover the whole buffer tightly.
    pub open spec fn wf(&self) -> bool {
        self.spec_stride() == self.spec_bound().spec_least_stride()
        && self.spec_data().len() == self.spec_bound().spec_len()
    }

    /// The viewed elements.
    pub fn as_slice(&self) -> (r: &'a [T])
        ensures
            r@ == self.spec_data(),
    {
        self.data
    }
}

impl<'a, T: 'a + Copy> ArrayView<'a, T, (usize, usize, usize)> for Array3dView<'a, T> {
    open spec fn spec_view_bound(&self) -> (usize, usize, usize) {
        self.spec_bound()
    }

    open spec fn spec_view_stride(&self) -> (usize, usize) {
        self.spec_stride()
    }

    fn bound(&self) -> (r: (usize, usize, usize)) {
        self.bound
    }

    fn stride(&self) -> (r: (usize, usize)) {
        self.stride
    }

    /// The logical element count, `bound().len()`, independent of stride.
    fn len(&self) -> (r: usize) {
        self.bound.len()
    }
}

/// An exclusive, writable window over part of a rank-3 array's buffer: the
/// backing buffer, the window's base offset into it, and the window's own
/// bound and stride.  The fields are public so that contracts can speak of
/// the buffer's final contents when the borrow expires.
pub struct Array3dViewMut<'a, T> where T: Copy {
    pub data: &'a mut [T],
    pub off: usize,
    pub bound: (usize, usize, usize),
    pub stride: (usize, usize),
}

impl<'a, T: Copy> Array3dViewMut<'a, T> {
    /// The window, `bound.len()` elements from `off`, lies inside the
    /// backing buffer.
    pub open spec fn wf(&self) -> bool {
        self.off + self.bound.spec_len() <= self.data@.len()
    }

    /// The backing buffer, writable, for a view whose window starts at its
    /// base.
    pub fn as_mut_slice(self) -> (r: &'a mut [T])
        requires
            self.off == 0,
        ensures
            r@ == old(self.data)@,
            final(r)@ == final(self.data)@,
    {
        self.data
    }

    /// The element at linear window index `idx`.
    pub fn get(&self, idx: usize) -> (r: T)
        requires
            self.wf(),
            idx < self.bound.spec_len(),
        ensures
            r == old(self.data)@[self.off + idx],
    {
        let dlen = self.data.len();
        let j = self.off + idx;
        self.data[j]
    }

    /// Writes the element at linear window index `idx`; every other buffer
    /// position keeps its value.
    pub fn put(&mut self, idx: usize, x: T)
        requires
            old(self).wf(),
            idx < old(self).bound.spec_len(),
        ensures
            final(self).off == old(self).off,
            final(self).bound == old(self).bound,
            final(self).stride == old(self).stride,
            final(self).data@ == old(self).data@.update(old(self).off + idx, x),
            final(old(self).data)@ == final(final(self).data)@,
    {
        let dlen = self.data.len();
        let j = self.off + idx;
        self.data[j] = x;
    }

    /// Narrows this view to the coordinate box `[lo, hi)`.  The parent must
    /// be tightly packed; the sub-view covers the contiguous window of
    /// `hi - lo` elements based at `lo`'s offset and keeps the parent's
    /// stride, so writes through it land at the parent's corresponding
    /// offsets.
    pub fn view_mut(self, lo: (usize, usize, usize), hi: (usize, usize, usize)) -> (r:
        Array3dViewMut<'a, T>)
        requires
            old(self.data)@.len() >= self.off + self.bound.spec_len(),
            self.stride == self.bound.spec_least_stride(),
            lo.0 <= hi.0 <= self.bound.0,
            lo.1 <= hi.1 <= self.bound.1,
            lo.2 <= hi.2 <= self.bound.2,
            lo.spec_offset(self.stride) + spec_sub_bound(lo, hi).spec_len()
                <= self.bound.spec_len(),
        ensures
            r.data@ == old(self.data)@,
            final(r.data)@ == final(self.data)@,
            r.off == self.off + lo.spec_offset(self.stride),
            r.bound == spec_sub_bound(lo, hi),
            r.stride == self.stride,
            r.wf(),
    {
        let new_bound = (hi.0 - lo.0, hi.1 - lo.1, hi.2 - lo.2);
        let dlen = self.data.len();
        proof {
            assert(spec_sub_bound(lo, hi).spec_len() >= 0) by (nonlinear_arith);
        }
        let new_offset = lo.offset(self.stride);
        Array3dViewMut {
            data: self.data,
            off: self.off + new_offset,
            bound: new_bound,
            stride: self.stride,
        }
    }

    /// Copies every element of `src` into this view.  The bounds must be
    /// equal and both layouts tightly packed with matching stride; any
    /// other combination is refused before anything is written.
    pub fn copy_from(&mut self, src: &Array3dView<'a, T>) -> (r: Result<(), CopyError>)
        requires
            old(self).wf(),
            src.wf(),
        ensures
            final(self).off == old(self).off,
            final(self).bound == old(self).bound,
            final(self).stride == old(self).stride,
            final(old(self).data)@ == final(final(self).data)@,
            r matches Err(CopyError::BoundMismatch) <==> old(self).bound != src.spec_bound(),
            r matches Err(CopyError::StrideUnsupported) <==> old(self).bound == src.spec_bound()
                && !(old(self).stride == old(self).bound.spec_least_stride() && old(self).stride
                == src.spec_stride()),
            r matches Ok(u) ==> final(self).data@ == old(self).data@.subrange(
                0,
                old(self).off as int,
            ) + src.spec_data() + old(self).data@.subrange(
                old(self).off + old(self).bound.spec_len(),
                old(self).data@.len() as int,
            ),
            r matches Err(e) ==> final(self).data@ == old(self).data@,
    {
        if !(self.bound.0 == src.bound.0 && self.bound.1 == src.bound.1 && self.bound.2
            == src.bound.2) {
            return Err(CopyError::BoundMismatch);
        }
        let least = self.bound.to_least_stride();
        if !(self.stride.0 == least.0 && self.stride.1 == least.1 && self.stride.0 == src.stride.0
            && self.stride.1 == src.stride.1) {
            return Err(CopyError::StrideUnsupported);
        }
        let dlen = self.data.len();
        let n = self.bound.len();
        let src_slice = src.as_slice();
        let mut i: usize = 0;
        while i < n
            invariant
                i <= n,
                dlen as int == self.data@.len(),
                n as int == old(self).bound.spec_len(),
                src_slice@ == src.spec_data(),
                src_slice@.len() == n,
                self.off == old(self).off,
                self.bound == old(self).bound,
                self.stride == old(self).stride,
                self.data@.len() == old(self).data@.len(),
                old(self).off + n <= self.data@.len(),
                final(self.data)@ == final(old(self).data)@,
                forall|j: int| 0 <= j < i ==> self.data@[old(self).off + j] == src_slice@[j],
                forall|j: int|
                    0 <= j < self.data@.len() && !(old(self).off <= j < old(self).off + i)
                        ==> self.data@[j] == old(self).data@[j],
            decreases n - i,
        {
            let j = self.off + i;
            self.data[j] = src_slice[i];
            i += 1;
        }
        proof {
            assert(self.data@ =~= old(self).data@.subrange(0, old(self).off as int)
                + src.spec_data() + old(self).data@.subrange(
                old(self).off + old(self).bound.spec_len(),
                old(self).data@.len() as int,
            ));
        }
        Ok(())
    }
}

impl<'a, T: 'a + Copy> ArrayViewMut<'a, T, (usize, usize, usize)> for Array3dViewMut<'a, T> {
    open spec fn spec_view_bound(&self) -> (usize, usize, usize) {
        self.bound
    }

    open spec fn spec_view_stride(&self) -> (usize, usize) {
        self.stride
    }

    fn bound(&self) -> (r: (usize, usize, usize)) {
        self.bound
    }

    fn stride(&self) -> (r: (usize, usize)) {
        self.stride
    }

    /// The logical element count, `bound().len()`, independent of stride.
    fn len(&self) -> (r: usize) {
        self.bound.len()
    }
}

/// The bound of the sub-view covering `[lo, hi)`: `hi - lo` per axis.
pub open spec fn spec_sub_bound(lo: (usize, usize, usize), hi: (usize, usize, usize)) -> (
    usize,
    usize,
    usize,
)
    recommends
        lo.0 <= hi.0,
        lo.1 <= hi.1,
        lo.2 <= hi.2,
{
    (((hi.0 - lo.0) as usize), ((hi.1 - lo.1) as usize), ((hi.2 - lo.2) as usize))
}

/// A sub-view window over a nonempty coordinate box always fits inside the
/// parent's box: the base offset plus the window length stays within the
/// parent's element count.
pub proof fn lemma_sub_window_fits(
    b: (usize, usize, usize),
    lo: (usize, usize, usize),
    hi: (usize, usize, usize),
)
    requires
        lo.0 < hi.0 <= b.0,
        lo.1 < hi.1 <= b.1,
        lo.2 < hi.2 <= b.2,
    ensures
        lo.spec_offset(b.spec_least_stride()) + spec_sub_bound(lo, hi).spec_len()
            <= b.spec_len(),
{
    assert(lo.0 + lo.1 * b.0 + lo.2 * b.1 * b.0 + (hi.0 - lo.0) * (hi.1 - lo.1) * (hi.2 - lo.2)
        <= b.0 * b.1 * b.2) by (nonlinear_arith)
        requires
            lo.0 < hi.0 <= b.0,
            lo.1 < hi.1 <= b.1,
            lo.2 < hi.2 <= b.2;
}

/// The bytes of the rank-3 record for elements `data` under bound `bound`.
pub open spec fn spec_serialized3<T: SerialDataType>(
    bound: (usize, usize, usize),
    data: Seq<T>,
) -> Seq<u8> {
    spec_header3(T::spec_serial_id(), bound.0 as u64, bound.1 as u64, bound.2 as u64)
        + spec_encode_elems(data)
}

/// What a byte sequence holds when read as a rank-3 record of element `T`:
/// the bound and the elements, or the first fault found.
pub open spec fn spec_parse3<T: SerialDataType>(b: Seq<u8>) -> Result<
    ((usize, usize, usize), Seq<T>),
    CodecError,
> {
    match spec_check_prefix(b, T::spec_serial_id(), 3) {
        Err(e) => Err(e),
        Ok(u) => {
            if b.len() < 32 {
                Err(CodecError::Truncated)
            } else {
                let e0 = spec_le64_decode(b.subrange(8, 16));
                let e1 = spec_le64_decode(b.subrange(16, 24));
                let e2 = spec_le64_decode(b.subrange(24, 32));
                if e0 > usize::MAX || e1 > usize::MAX || e2 > usize::MAX || e0 * e1 * e2
                    > usize::MAX {
                    Err(CodecError::InvalidShape)
                } else {
                    let n = e0 * e1 * e2;
                    if b.len() < 32 + n * T::spec_width() {
                        Err(CodecError::Truncated)
                    } else {
                        Ok((
                            ((e0 as usize), (e1 as usize), (e2 as usize)),
                            spec_decode_elems::<T>(b, 32, n as int),
                        ))
                    }
                }
            }
        },
    }
}

impl<T: SerialDataType> ArrayZeroExt<T, (usize, usize, usize)> for Array3d<T> {
    /// Allocates a tightly packed array of `bound` with every element zero.
    fn zeros(bound: (usize, usize, usize)) -> (r: Array3d<T>)
        ensures
            r.wf(),
            r.spec_bound() == bound,
            r.spec_data() == Seq::new(bound.spec_len() as nat, |i: int| T::spec_zero()),
    {
        let len = bound.len();
        let mut data: Vec<T> = Vec::new();
        let mut i: usize = 0;
        while i < len
            invariant
                i <= len,
                data@ == Seq::new(i as nat, |j: int| T::spec_zero()),
            decreases len - i,
        {
            data.push(T::zero());
            proof {
                assert(data@ =~= Seq::new((i + 1) as nat, |j: int| T::spec_zero()));
            }
            i += 1;
        }
        let stride = bound.to_least_stride();
        proof {
            assert(data@ =~= Seq::new(bound.spec_len() as nat, |j: int| T::spec_zero()));
        }
        Array3d { data, bound, stride }
    }
}

impl<T: SerialDataType> NdArraySerialize<T, (usize, usize, usize)> for Array3d<T> {
    /// Header bytes plus one fixed-width coding per element.
    open spec fn spec_serial_size(bound: (usize, usize, usize)) -> int {
        32 + bound.spec_len() * T::spec_width()
    }

    open spec fn spec_serial_wf(&self) -> bool {
        self.wf()
    }

    fn serial_size(bound: (usize, usize, usize)) -> (r: usize) {
        proof {
            T::lemma_width_pos();
            assert(bound.spec_len() * T::spec_width() >= bound.spec_len() * 1
                && bound.spec_len() * 1 == bound.spec_len() && bound.spec_len() >= 0)
                by (nonlinear_arith)
                requires T::spec_width() >= 1;
        }
        let len = bound.len();
        let w = T::width();
        let payload = match mul_to_usize(len, w) {
            Some(p) => p,
            None => {
                proof {
                    assert(false);
                }
                0
            },
        };
        32 + payload
    }

    /// Appends the record for this array: header, extents, then every
    /// element's coding, exactly `spec_serial_size(bound)` bytes in all.
    fn serialize(&self, out: &mut Vec<u8>)
        ensures
            final(out)@ == old(out)@ + spec_serialized3::<T>(self.spec_bound(), self.spec_data()),
            final(out)@.len() == old(out)@.len() + Self::spec_serial_size(self.spec_bound()),
    {
        push_header_prefix(out, T::serial_id(), 3);
        push_le64(out, self.bound.0 as u64);
        push_le64(out, self.bound.1 as u64);
        push_le64(out, self.bound.2 as u64);
        write_payload(out, &self.data);
        proof {
            lemma_encode_elems_len::<T>(self.data@);
            assert(out@ =~= old(out)@ + spec_serialized3::<T>(
                self.spec_bound(),
                self.spec_data(),
            ));
        }
    }

    /// Reads one rank-3 record of element `T` from the front of `bytes`;
    /// bytes past the record are ignored.  The result mirrors
    /// `spec_parse3` exactly, fault for fault.
    fn deserialize(bytes: &[u8]) -> (r: Result<Array3d<T>, CodecError>)
        ensures
            r matches Ok(a) ==> a.wf() && spec_parse3::<T>(bytes@) == Ok::<
                ((usize, usize, usize), Seq<T>),
                CodecError,
            >((a.spec_bound(), a.spec_data())),
            r matches Err(e) ==> spec_parse3::<T>(bytes@) == Err::<
                ((usize, usize, usize), Seq<T>),
                CodecError,
            >(e),
    {
        if let Err(e) = check_prefix(bytes, T::serial_id(), 3) {
            return Err(e);
        }
        if bytes.len() < 32 {
            return Err(CodecError::Truncated);
        }
        let e0 = read_le64(bytes, 8);
        let e1 = read_le64(bytes, 16);
        let e2 = read_le64(bytes, 24);
        if e0 > usize::MAX as u64 || e1 > usize::MAX as u64 || e2 > usize::MAX as u64 {
            return Err(CodecError::InvalidShape);
        }
        let b0 = e0 as usize;
        let b1 = e1 as usize;
        let b2 = e2 as usize;
        let n: usize = if b0 == 0 || b1 == 0 || b2 == 0 {
            proof {
                assert(b0 as int * b1 * b2 == 0) by (nonlinear_arith)
                    requires b0 == 0 || b1 == 0 || b2 == 0;
            }
            0
        } else {
            let n01 = match mul_to_usize(b0, b1) {
                Some(p) => p,
                None => {
                    proof {
                        assert(b0 as int * b1 * b2 > usize::MAX) by (nonlinear_arith)
                            requires b0 as int * b1 > usize::MAX, b2 >= 1;
                    }
                    return Err(CodecError::InvalidShape);
                },
            };
            match mul_to_usize(n01, b2) {
                Some(p) => {
                    proof {
                        assert(n01 as int * b2 == b0 as int * b1 * b2) by (nonlinear_arith)
                            requires n01 as int == b0 as int * b1;
                    }
                    p
                },
                None => {
                    proof {
                        assert(n01 as int * b2 == b0 as int * b1 * b2) by (nonlinear_arith)
                            requires n01 as int == b0 as int * b1;
                    }
                    return Err(CodecError::InvalidShape);
                },
            }
        };
        let w = T::width();
        proof {
            T::lemma_width_pos();
        }
        if !payload_fits(bytes.len(), 32, n, w) {
            return Err(CodecError::Truncated);
        }
        let data = read_payload::<T>(bytes, 32, n);
        let bound = (b0, b1, b2);
        let stride = bound.to_least_stride();
        Ok(Array3d { data, bound, stride })
    }
}


/// Serialization round trip for rank-3 records: parsing a serialized
/// record, with anything appended after it, yields exactly the bound and
/// elements that were written.
pub proof fn lemma_round_trip3<T: SerialDataType>(
    bound: (usize, usize, usize),
    data: Seq<T>,
    rest: Seq<u8>,
)
    requires
        data.len() == bound.spec_len(),
        bound.spec_len() <= usize::MAX,
    ensures
        spec_parse3::<T>(spec_serialized3::<T>(bound, data) + rest) == Ok::<
            ((usize, usize, usize), Seq<T>),
            CodecError,
        >((bound, data)),
{
    let id = T::spec_serial_id();
    let e0 = bound.0 as u64;
    let e1 = bound.1 as u64;
    let e2 = bound.2 as u64;
    let enc = spec_encode_elems(data);
    let b = spec_serialized3::<T>(bound, data) + rest;
    let w = T::spec_width();
    let n = bound.spec_len();
    T::lemma_width_pos();
    lemma_encode_elems_len::<T>(data);
    assert(n * w >= 0) by (nonlinear_arith)
        requires n >= 0, w >= 1;
    assert(b.len() == 32 + n * w + rest.len());
    assert(b[0] == MAGIC0 && b[1] == MAGIC1 && b[2] == FORMAT_VERSION && b[3] == id);
    assert(b.subrange(4, 8) =~= spec_le32(3));
    lemma_le32_round_trip(3);
    assert(spec_check_prefix(b, id, 3) == Ok::<(), CodecError>(()));
    assert(b.subrange(8, 16) =~= spec_le64(e0));
    assert(b.subrange(16, 24) =~= spec_le64(e1));
    assert(b.subrange(24, 32) =~= spec_le64(e2));
    lemma_le64_round_trip(e0);
    lemma_le64_round_trip(e1);
    lemma_le64_round_trip(e2);
    assert(e0 * e1 * e2 == n);
    assert(b.subrange(32, 32 + n * w) =~= enc);
    lemma_decode_encode_elems::<T>(b, 32, data);
    assert((e0 as usize) == bound.0 && (e1 as usize) == bound.1 && (e2 as usize) == bound.2);
}

} // verus!

//! A small, low-level N-dimensional array library: a shape/stride model for
//! ranks 1 to 3, owning dense arrays with borrowed views for ranks 2 and 3, a
//! bit-packed rank-3 boolean array, and a compact self-describing binary
//! record format ("ND") shared by all of them.

pub mod array2;
pub mod array3;
pub mod bitarray;
pub mod codec;
pub mod elem;
pub mod shape;

use vstd::prelude::*;
use crate::codec::CodecError;
use crate::elem::SerialDataType;
use crate::shape::Shape;

verus! {

/// An owning array: hands out borrows of the whole array, shared or
/// exclusive.
pub trait Array<'a, T, S> where T: 'a + Copy, S: Shape {
    type View;

    type ViewMut;

    fn as_view(&'a self) -> Self::View;

    fn as_view_mut(&'a mut self) -> Self::ViewMut;
}

/// A shared, read-only view: its bound, its stride, and its logical element
/// count.
pub trait ArrayView<'a, T, S> where T: 'a + Copy, S: Shape {
    /// The view's bound.
    spec fn spec_view_bound(&self) -> S;

    /// The view's stride.
    spec fn spec_view_stride(&self) -> S::Stride;

    fn bound(&self) -> (r: S)
        ensures
            r == self.spec_view_bound(),
    ;

    fn stride(&self) -> (r: S::Stride)
        ensures
            r == self.spec_view_stride(),
    ;

    fn len(&self) -> (r: usize)
        requires
            self.spec_view_bound().spec_len() <= usize::MAX,
        ensures
            r as int == self.spec_view_bound().spec_len(),
    ;
}

/// An exclusive, writable view: the same accessors as a shared view.
pub trait ArrayViewMut<'a, T, S> where T: 'a + Copy, S: Shape {
    /// The view's bound.
    spec fn spec_view_bound(&self) -> S;

    /// The view's stride.
    spec fn spec_view_stride(&self) -> S::Stride;

    fn bound(&self) -> (r: S)
        ensures
            r == self.spec_view_bound(),
    ;

    fn stride(&self) -> (r: S::Stride)
        ensures
            r == self.spec_view_stride(),
    ;

    fn len(&self) -> (r: usize)
        requires
            self.spec_view_bound().spec_len() <= usize::MAX,
        ensures
            r as int == self.spec_view_bound().spec_len(),
    ;
}

/// An owning array type constructible with every element set to the element
/// type's zero value.
pub trait ArrayZeroExt<T: SerialDataType, S: Shape>: Sized {
    fn zeros(bound: S) -> (r: Self)
        requires
            bound.spec_len() <= usize::MAX,
    ;
}

/// An array type that travels in the "ND" record format.
pub trait NdArraySerialize<T: SerialDataType, S: Shape>: Sized {
    /// The exact number of bytes a record of bound `bound` occupies.
    spec fn spec_serial_size(bound: S) -> int;

    /// Whether this value is fit to serialize: its layout is tightly packed.
    spec fn spec_serial_wf(&self) -> bool;

    fn serial_size(bound: S) -> (r: usize)
        requires
            Self::spec_serial_size(bound) <= usize::MAX,
        ensures
            r as int == Self::spec_serial_size(bound),
    ;

    fn serialize(&self, out: &mut Vec<u8>)
        requires
            self.spec_serial_wf(),
    ;

    fn deserialize(bytes: &[u8]) -> (r: Result<Self, CodecError>);
}

} // verus!

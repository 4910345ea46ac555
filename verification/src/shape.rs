//! Shape/stride arithmetic: extent tuples of rank 1, 2, or 3, their
//! contiguous ("least") strides, flattened lengths, and linear offsets.

use vstd::prelude::*;
use vstd::arithmetic::div_mod::{lemma_fundamental_div_mod, lemma_mod_bound};
use vstd::arithmetic::mul::lemma_mul_inequality;

verus! {

/// An extent tuple describing an array's logical size, one unsigned extent
/// per axis.  The same tuple type doubles as a coordinate inside the box
/// `[0, bound)` on every axis; `offset` reads `self` as such a coordinate.
pub trait Shape: Sized {
    type Stride;

    /// The all-zero coordinate of this rank.
    spec fn spec_origin() -> Self;

    /// The stride under which this bound is exactly contiguous in row-major
    /// order, the first axis varying fastest.
    spec fn spec_least_stride(&self) -> Self::Stride;

    /// The product of all extents.
    spec fn spec_len(&self) -> int;

    /// The linear offset of the coordinate `self` under `stride`:
    /// `c0` (rank 1), `c0 + c1*s` (rank 2), `c0 + c1*s0 + c2*s1*s0` (rank 3).
    spec fn spec_offset(&self, stride: Self::Stride) -> int;

    fn to_least_stride(&self) -> (r: Self::Stride)
        ensures
            r == self.spec_least_stride(),
    ;

    fn len(&self) -> (r: usize)
        requires
            self.spec_len() <= usize::MAX,
        ensures
            r as int == self.spec_len(),
    ;

    fn offset(&self, stride: Self::Stride) -> (r: usize)
        requires
            self.spec_offset(stride) <= usize::MAX,
        ensures
            r as int == self.spec_offset(stride),
    ;

    fn major_iter(self) -> (r: MajorIter<Self>)
        ensures
            r.spec_idx() == Self::spec_origin(),
            r.spec_upper_bound() == self,
    ;
}

impl Shape for usize {
    type Stride = ();

    open spec fn spec_origin() -> usize {
        0
    }

    open spec fn spec_least_stride(&self) -> () {
        ()
    }

    open spec fn spec_len(&self) -> int {
        *self as int
    }

    open spec fn spec_offset(&self, _stride: ()) -> int {
        *self as int
    }

    fn to_least_stride(&self) -> (r: ()) {
        ()
    }

    fn len(&self) -> (r: usize) {
        *self
    }

    fn offset(&self, _stride: ()) -> (r: usize) {
        *self
    }

    fn major_iter(self) -> (r: MajorIter<usize>) {
        MajorIter { idx: 0, upper_bound: self }
    }
}

impl Shape for (usize, usize) {
    type Stride = usize;

    open spec fn spec_origin() -> (usize, usize) {
        (0usize, 0usize)
    }

    open spec fn spec_least_stride(&self) -> usize {
        self.0
    }

    open spec fn spec_len(&self) -> int {
        self.0 * self.1
    }

    open spec fn spec_offset(&self, stride: usize) -> int {
        self.0 + self.1 * stride
    }

    fn to_least_stride(&self) -> (r: usize) {
        self.0
    }

    fn len(&self) -> (r: usize) {
        self.0 * self.1
    }

    fn offset(&self, stride: usize) -> (r: usize) {
        self.0 + self.1 * stride
    }

    fn major_iter(self) -> (r: MajorIter<(usize, usize)>) {
        MajorIter { idx: (0, 0), upper_bound: self }
    }
}

impl Shape for (usize, usize, usize) {
    type Stride = (usize, usize);

    open spec fn spec_origin() -> (usize, usize, usize) {
        (0usize, 0usize, 0usize)
    }

    open spec fn spec_least_stride(&self) -> (usize, usize) {
        (self.0, self.1)
    }

    open spec fn spec_len(&self) -> int {
        self.0 * self.1 * self.2
    }

    open spec fn spec_offset(&self, stride: (usize, usize)) -> int {
        self.0 + self.1 * stride.0 + self.2 * stride.1 * stride.0
    }

    fn to_least_stride(&self) -> (r: (usize, usize)) {
        (self.0, self.1)
    }

    fn len(&self) -> (r: usize) {
        if self.2 == 0 {
            0
        } else {
            proof {
                lemma_mul_inequality(1, self.2 as int, (self.0 * self.1) as int);
                assert((self.0 * self.1) * 1 == self.0 * self.1) by (nonlinear_arith);
                assert((self.0 * self.1) * self.2 >= (self.0 * self.1) * 1) by (nonlinear_arith)
                    requires self.2 >= 1;
            }
            self.0 * self.1 * self.2
        }
    }

    fn offset(&self, stride: (usize, usize)) -> (r: usize) {
        let t1 = if self.1 == 0 {
            proof {
                assert(self.1 * stride.0 == 0) by (nonlinear_arith)
                    requires self.1 == 0;
                assert(self.2 * stride.1 * stride.0 >= 0) by (nonlinear_arith);
            }
            0
        } else {
            proof {
                assert(self.1 * stride.0 >= 1 * stride.0) by (nonlinear_arith)
                    requires self.1 >= 1;
                assert(self.2 * stride.1 * stride.0 >= 0) by (nonlinear_arith);
            }
            self.1 * stride.0
        };
        let t2 = if self.2 == 0 {
            proof {
                assert(self.2 * stride.1 * stride.0 == 0) by (nonlinear_arith)
                    requires self.2 == 0;
            }
            0
        } else {
            proof {
                assert(self.2 * stride.1 * stride.0 >= 1 * (stride.1 * stride.0))
                    by (nonlinear_arith)
                    requires self.2 >= 1;
                assert(self.2 * stride.1 * stride.0 == self.2 * (stride.1 * stride.0))
                    by (nonlinear_arith);
                assert(self.1 * stride.0 >= 0) by (nonlinear_arith);
            }
            self.2 * (stride.1 * stride.0)
        };
        self.0 + t1 + t2
    }

    fn major_iter(self) -> (r: MajorIter<(usize, usize, usize)>) {
        MajorIter { idx: (0, 0, 0), upper_bound: self }
    }
}

/// Walks the coordinates of a box in axis-0-fastest order, starting one step
/// past the origin: the origin itself is never yielded, and after the walk
/// is exhausted a further step wraps the first two axes and starts over.
pub struct MajorIter<S> {
    idx: S,
    upper_bound: S,
}

impl<S> MajorIter<S> {
    pub closed spec fn spec_idx(&self) -> S {
        self.idx
    }

    pub closed spec fn spec_upper_bound(&self) -> S {
        self.upper_bound
    }
}

/// One step of the rank-3 coordinate walk: the yielded coordinate (if any)
/// and the stored coordinate after the step.
pub open spec fn spec_major_step(i: (usize, usize, usize), ub: (usize, usize, usize)) -> (
    Option<(usize, usize, usize)>,
    (usize, usize, usize),
)
    recommends
        i.0 < usize::MAX,
        i.1 < usize::MAX,
        i.2 < usize::MAX,
{
    if i.0 + 1 < ub.0 {
        let n = (((i.0 + 1) as usize), i.1, i.2);
        (Some(n), n)
    } else if i.1 + 1 < ub.1 {
        let n = (0usize, ((i.1 + 1) as usize), i.2);
        (Some(n), n)
    } else if i.2 + 1 < ub.2 {
        let n = (0usize, 0usize, ((i.2 + 1) as usize));
        (Some(n), n)
    } else {
        (None, (0usize, 0usize, ((i.2 + 1) as usize)))
    }
}

impl MajorIter<(usize, usize, usize)> {
    pub fn next(&mut self) -> (r: Option<(usize, usize, usize)>)
        requires
            old(self).spec_idx().0 < usize::MAX,
            old(self).spec_idx().1 < usize::MAX,
            old(self).spec_idx().2 < usize::MAX,
        ensures
            final(self).spec_upper_bound() == old(self).spec_upper_bound(),
            r == spec_major_step(old(self).spec_idx(), old(self).spec_upper_bound()).0,
            final(self).spec_idx() == spec_major_step(
                old(self).spec_idx(),
                old(self).spec_upper_bound(),
            ).1,
    {
        self.idx.0 += 1;
        if self.idx.0 < self.upper_bound.0 {
            return Some(self.idx);
        }
        self.idx.0 = 0;
        self.idx.1 += 1;
        if self.idx.1 < self.upper_bound.1 {
            return Some(self.idx);
        }
        self.idx.1 = 0;
        self.idx.2 += 1;
        if self.idx.2 < self.upper_bound.2 {
            return Some(self.idx);
        }
        None
    }
}

/// Under the least stride, the rank-1 offset map is the identity on the
/// box, hence a bijection onto `[0, len)`.
pub proof fn lemma_least_offset_bijective1(b: usize, c: usize)
    requires
        c < b,
    ensures
        0 <= c.spec_offset(b.spec_least_stride()) < b.spec_len(),
        c.spec_offset(b.spec_least_stride()) == c,
{
}

/// Under the least stride, every in-box rank-2 coordinate lands strictly
/// inside `[0, len)`.
pub proof fn lemma_least_offset_in_range2(b: (usize, usize), c: (usize, usize))
    requires
        c.0 < b.0,
        c.1 < b.1,
    ensures
        0 <= c.spec_offset(b.spec_least_stride()) < b.spec_len(),
{
    assert(c.0 + c.1 * b.0 < b.0 * b.1) by (nonlinear_arith)
        requires c.0 < b.0, c.1 < b.1;
    assert(c.0 + c.1 * b.0 >= 0) by (nonlinear_arith);
}

/// Under the least stride, the rank-2 offset map is injective on the box.
pub proof fn lemma_least_offset_injective2(b: (usize, usize), c: (usize, usize), d: (usize, usize))
    requires
        c.0 < b.0,
        c.1 < b.1,
        d.0 < b.0,
        d.1 < b.1,
        c.spec_offset(b.spec_least_stride()) == d.spec_offset(b.spec_least_stride()),
    ensures
        c == d,
{
    assert(c.0 == d.0 && c.1 == d.1) by (nonlinear_arith)
        requires
            c.0 < b.0,
            d.0 < b.0,
            c.0 + c.1 * b.0 == d.0 + d.1 * b.0;
}

/// Under the least stride, every linear index below `len` is hit by some
/// in-box rank-2 coordinate.
pub proof fn lemma_least_offset_surjective2(b: (usize, usize), k: int)
    requires
        0 <= k < b.spec_len(),
    ensures
        exists|c: (usize, usize)|
            c.0 < b.0 && c.1 < b.1 && c.spec_offset(b.spec_least_stride()) == k,
{
    let b0 = b.0 as int;
    let b1 = b.1 as int;
    assert(b0 > 0 && b1 > 0) by (nonlinear_arith)
        requires 0 <= k < b0 * b1, b0 >= 0, b1 >= 0;
    let c0 = k % b0;
    let c1 = k / b0;
    lemma_fundamental_div_mod(k, b0);
    lemma_mod_bound(k, b0);
    assert(c1 < b1) by (nonlinear_arith)
        requires k < b0 * b1, k == b0 * (k / b0) + k % b0, 0 <= k % b0, b0 > 0, c1 == k / b0;
    assert(c1 >= 0) by (nonlinear_arith)
        requires k >= 0, k == b0 * c1 + c0, c0 < b0, b0 > 0;
    let c = ((c0 as usize), (c1 as usize));
    assert(c.spec_offset(b.spec_least_stride()) == k) by (nonlinear_arith)
        requires
            c.0 == k % b0,
            c.1 == k / b0,
            k == b0 * (k / b0) + k % b0,
            c.spec_offset(b.spec_least_stride()) == c.0 + c.1 * b0;
    assert(c.0 < b.0 && c.1 < b.1 && c.spec_offset(b.spec_least_stride()) == k);
}

/// Under the least stride, every in-box rank-3 coordinate lands strictly
/// inside `[0, len)`.
pub proof fn lemma_least_offset_in_range3(b: (usize, usize, usize), c: (usize, usize, usize))
    requires
        c.0 < b.0,
        c.1 < b.1,
        c.2 < b.2,
    ensures
        0 <= c.spec_offset(b.spec_least_stride()) < b.spec_len(),
{
    assert(c.0 + c.1 * b.0 + c.2 * b.1 * b.0 < b.0 * b.1 * b.2) by (nonlinear_arith)
        requires c.0 < b.0, c.1 < b.1, c.2 < b.2;
    assert(c.0 + c.1 * b.0 + c.2 * b.1 * b.0 >= 0) by (nonlinear_arith);
}

/// Under the least stride, the rank-3 offset map is injective on the box.
pub proof fn lemma_least_offset_injective3(
    b: (usize, usize, usize),
    c: (usize, usize, usize),
    d: (usize, usize, usize),
)
    requires
        c.0 < b.0,
        c.1 < b.1,
        c.2 < b.2,
        d.0 < b.0,
        d.1 < b.1,
        d.2 < b.2,
        c.spec_offset(b.spec_least_stride()) == d.spec_offset(b.spec_least_stride()),
    ensures
        c == d,
{
    assert(c.0 == d.0 && c.1 == d.1 && c.2 == d.2) by (nonlinear_arith)
        requires
            c.0 < b.0,
            c.1 < b.1,
            d.0 < b.0,
            d.1 < b.1,
            c.0 + c.1 * b.0 + c.2 * b.1 * b.0 == d.0 + d.1 * b.0 + d.2 * b.1 * b.0;
}

/// Under the least stride, every linear index below `len` is hit by some
/// in-box rank-3 coordinate.
pub proof fn lemma_least_offset_surjective3(b: (usize, usize, usize), k: int)
    requires
        0 <= k < b.spec_len(),
    ensures
        exists|c: (usize, usize, usize)|
            c.0 < b.0 && c.1 < b.1 && c.2 < b.2 && c.spec_offset(b.spec_least_stride()) == k,
{
    let b0 = b.0 as int;
    let b1 = b.1 as int;
    let b2 = b.2 as int;
    assert(b0 > 0 && b1 > 0 && b2 > 0) by (nonlinear_arith)
        requires 0 <= k < b0 * b1 * b2, b0 >= 0, b1 >= 0, b2 >= 0;
    let c0 = k % b0;
    let rest = k / b0;
    lemma_fundamental_div_mod(k, b0);
    lemma_mod_bound(k, b0);
    assert(0 <= rest < b1 * b2) by (nonlinear_arith)
        requires
            0 <= k < b0 * b1 * b2,
            k == b0 * rest + c0,
            0 <= c0 < b0,
            b0 > 0;
    let c1 = rest % b1;
    let c2 = rest / b1;
    lemma_fundamental_div_mod(rest, b1);
    lemma_mod_bound(rest, b1);
    assert(0 <= c2 < b2) by (nonlinear_arith)
        requires
            0 <= rest < b1 * b2,
            rest == b1 * c2 + c1,
            0 <= c1 < b1,
            b1 > 0;
    let c = ((c0 as usize), (c1 as usize), (c2 as usize));
    assert(c.spec_offset(b.spec_least_stride()) == k) by (nonlinear_arith)
        requires
            k == b0 * rest + c0,
            rest == b1 * c2 + c1,
            c.0 == c0,
            c.1 == c1,
            c.2 == c2,
            c.spec_offset(b.spec_least_stride()) == c.0 + c.1 * b0 + c.2 * b1 * b0;
    assert(c.0 < b.0 && c.1 < b.1 && c.2 < b.2 && c.spec_offset(b.spec_least_stride()) == k);
}

} // verus!

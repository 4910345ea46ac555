//! Element types of the dense arrays: each declares its element-type tag,
//! fixed byte width, zero value, and an exact byte coding, and the payload
//! of a record is the concatenation of its elements' codings.

use vstd::prelude::*;
use crate::codec::{
    spec_le32, spec_le32_decode, spec_le64, spec_le64_decode, lemma_le32_round_trip,
    lemma_le64_round_trip, push_le32, push_le64, read_le32, read_le64,
};

verus! {

/// A scalar with a fixed-width, position-independent byte coding.
pub trait FixedBytes: Copy + Sized {
    /// Bytes one value occupies on the wire.
    spec fn spec_width() -> int;

    /// The bytes of one value.
    spec fn spec_encode(self) -> Seq<u8>;

    /// The value of one coded window; meaningful when `b` has exactly
    /// `spec_width` bytes.
    spec fn spec_decode(b: Seq<u8>) -> Self;

    proof fn lemma_width_pos()
        ensures
            Self::spec_width() >= 1,
    ;

    proof fn lemma_encode_width(self)
        ensures
            self.spec_encode().len() == Self::spec_width(),
    ;

    proof fn lemma_decode_encode(self)
        ensures
            Self::spec_decode(self.spec_encode()) == self,
    ;

    fn width() -> (r: usize)
        ensures
            r as int == Self::spec_width(),
    ;

    fn encode_push(self, out: &mut Vec<u8>)
        ensures
            final(out)@ == old(out)@ + self.spec_encode(),
    ;

    fn decode_at(bytes: &[u8], off: usize) -> (r: Self)
        requires
            off + Self::spec_width() <= bytes@.len(),
        ensures
            r == Self::spec_decode(bytes@.subrange(off as int, off + Self::spec_width())),
    ;
}

/// A dense array element: a fixed-width scalar that additionally declares
/// the element-type tag it is recorded under and its zero value.
pub trait SerialDataType: FixedBytes {
    /// The element-type tag written into and expected from a record header.
    spec fn spec_serial_id() -> u8;

    /// The value a zero-filling constructor stores everywhere.
    spec fn spec_zero() -> Self;

    fn serial_id() -> (r: u8)
        ensures
            r == Self::spec_serial_id(),
    ;

    fn zero() -> (r: Self)
        ensures
            r == Self::spec_zero(),
    ;
}

impl FixedBytes for u8 {
    open spec fn spec_width() -> int {
        1
    }

    open spec fn spec_encode(self) -> Seq<u8> {
        seq![self]
    }

    open spec fn spec_decode(b: Seq<u8>) -> u8 {
        b[0]
    }

    proof fn lemma_width_pos() {
    }

    proof fn lemma_encode_width(self) {
    }

    proof fn lemma_decode_encode(self) {
    }

    fn width() -> (r: usize) {
        1
    }

    fn encode_push(self, out: &mut Vec<u8>) {
        out.push(self);
        proof {
            assert(out@ =~= old(out)@ + self.spec_encode());
        }
    }

    fn decode_at(bytes: &[u8], off: usize) -> (r: u8) {
        let b = bytes[off];
        proof {
            assert(bytes@.subrange(off as int, off + 1)[0] == bytes@[off as int]);
        }
        b
    }
}

impl SerialDataType for u8 {
    open spec fn spec_serial_id() -> u8 {
        0
    }

    open spec fn spec_zero() -> u8 {
        0
    }

    fn serial_id() -> (r: u8) {
        0
    }

    fn zero() -> (r: u8) {
        0
    }
}

/// The bit pattern of a 32-bit IEEE-754 value.  The dense arrays store and
/// serialize such elements by their bits alone; interpreting the bits as a
/// floating-point number is the caller's concern.
#[derive(Clone, Copy, Debug, PartialEq, Eq, Structural)]
pub struct F32Bits {
    pub bits: u32,
}

impl FixedBytes for F32Bits {
    open spec fn spec_width() -> int {
        4
    }

    open spec fn spec_encode(self) -> Seq<u8> {
        spec_le32(self.bits)
    }

    open spec fn spec_decode(b: Seq<u8>) -> F32Bits {
        F32Bits { bits: spec_le32_decode(b) }
    }

    proof fn lemma_width_pos() {
    }

    proof fn lemma_encode_width(self) {
    }

    proof fn lemma_decode_encode(self) {
        lemma_le32_round_trip(self.bits);
    }

    fn width() -> (r: usize) {
        4
    }

    fn encode_push(self, out: &mut Vec<u8>) {
        push_le32(out, self.bits);
    }

    fn decode_at(bytes: &[u8], off: usize) -> (r: F32Bits) {
        F32Bits { bits: read_le32(bytes, off) }
    }
}

impl SerialDataType for F32Bits {
    open spec fn spec_serial_id() -> u8 {
        1
    }

    open spec fn spec_zero() -> F32Bits {
        F32Bits { bits: 0 }
    }

    fn serial_id() -> (r: u8) {
        1
    }

    fn zero() -> (r: F32Bits) {
        F32Bits { bits: 0 }
    }
}

/// The 64-bit words of a bit-packed payload travel in the same fixed-width
/// coding as dense elements, though under the reserved tag of the whole
/// array rather than a tag of their own.
impl FixedBytes for u64 {
    open spec fn spec_width() -> int {
        8
    }

    open spec fn spec_encode(self) -> Seq<u8> {
        spec_le64(self)
    }

    open spec fn spec_decode(b: Seq<u8>) -> u64 {
        spec_le64_decode(b)
    }

    proof fn lemma_width_pos() {
    }

    proof fn lemma_encode_width(self) {
    }

    proof fn lemma_decode_encode(self) {
        lemma_le64_round_trip(self);
    }

    fn width() -> (r: usize) {
        8
    }

    fn encode_push(self, out: &mut Vec<u8>) {
        push_le64(out, self);
    }

    fn decode_at(bytes: &[u8], off: usize) -> (r: u64) {
        read_le64(bytes, off)
    }
}

/// The payload bytes of `data`: each element's coding, in order.
pub open spec fn spec_encode_elems<T: FixedBytes>(data: Seq<T>) -> Seq<u8>
    decreases data.len(),
{
    if data.len() == 0 {
        Seq::empty()
    } else {
        data[0].spec_encode() + spec_encode_elems(data.drop_first())
    }
}

/// The `n` elements coded at `b[start ..]`, each read from its own window.
pub open spec fn spec_decode_elems<T: FixedBytes>(b: Seq<u8>, start: int, n: int) -> Seq<T>
    recommends
        n >= 0,
{
    Seq::new(n as nat, |i: int|
        T::spec_decode(b.subrange(start + i * T::spec_width(), start + (i + 1) * T::spec_width())),
    )
}

pub proof fn lemma_encode_elems_len<T: FixedBytes>(data: Seq<T>)
    ensures
        spec_encode_elems(data).len() == data.len() * T::spec_width(),
    decreases data.len(),
{
    let w = T::spec_width();
    if data.len() == 0 {
        assert(0int * w == 0) by (nonlinear_arith);
    } else {
        data[0].lemma_encode_width();
        lemma_encode_elems_len::<T>(data.drop_first());
        assert(w + (data.len() - 1) * w == data.len() * w) by (nonlinear_arith);
    }
}

pub proof fn lemma_encode_elems_push<T: FixedBytes>(data: Seq<T>, x: T)
    ensures
        spec_encode_elems(data.push(x)) == spec_encode_elems(data) + x.spec_encode(),
    decreases data.len(),
{
    let p = data.push(x);
    if data.len() == 0 {
        assert(p[0] == x);
        assert(p.drop_first() =~= Seq::<T>::empty());
        assert(spec_encode_elems(p) == x.spec_encode() + spec_encode_elems(Seq::<T>::empty()));
        assert(x.spec_encode() + Seq::<u8>::empty() =~= Seq::<u8>::empty() + x.spec_encode());
    } else {
        let a = data[0].spec_encode();
        assert(p[0] == data[0]);
        assert(p.drop_first() =~= data.drop_first().push(x));
        lemma_encode_elems_push::<T>(data.drop_first(), x);
        assert(spec_encode_elems(p) == a + (spec_encode_elems(data.drop_first())
            + x.spec_encode()));
        assert(spec_encode_elems(data) + x.spec_encode() == (a + spec_encode_elems(
            data.drop_first())) + x.spec_encode());
        assert(a + (spec_encode_elems(data.drop_first()) + x.spec_encode()) =~= (a
            + spec_encode_elems(data.drop_first())) + x.spec_encode());
    }
}

/// The coding of element `i` sits at window `i` of the payload.
pub proof fn lemma_encode_elems_slice<T: FixedBytes>(data: Seq<T>, i: int)
    requires
        0 <= i < data.len(),
    ensures
        spec_encode_elems(data).subrange(i * T::spec_width(), (i + 1) * T::spec_width())
            == data[i].spec_encode(),
    decreases i,
{
    let w = T::spec_width();
    let enc = spec_encode_elems(data);
    let head = data[0].spec_encode();
    let tail = spec_encode_elems(data.drop_first());
    data[0].lemma_encode_width();
    lemma_encode_elems_len::<T>(data);
    lemma_encode_elems_len::<T>(data.drop_first());
    T::lemma_width_pos();
    assert(i * w >= 0 && (i + 1) * w == i * w + w && i * w + w <= data.len() * w)
        by (nonlinear_arith)
        requires 0 <= i < data.len(), w >= 1;
    assert((data.len() - 1) * w == data.len() * w - w) by (nonlinear_arith);
    if i == 0 {
        assert(enc.subrange(0, w) =~= head);
        assert(0int * w == 0 && 1int * w == w) by (nonlinear_arith);
    } else {
        lemma_encode_elems_slice::<T>(data.drop_first(), i - 1);
        assert((i - 1) * w == i * w - w && i * w == (i + 1) * w - w) by (nonlinear_arith);
        assert(enc.subrange(i * w, (i + 1) * w)
            =~= tail.subrange(i * w - w, (i + 1) * w - w));
        assert(data.drop_first()[i - 1] == data[i]);
    }
}

/// Decoding a payload that was produced by encoding yields the original
/// elements.
pub proof fn lemma_decode_encode_elems<T: FixedBytes>(b: Seq<u8>, start: int, data: Seq<T>)
    requires
        0 <= start,
        start + data.len() * T::spec_width() <= b.len(),
        b.subrange(start, start + data.len() * T::spec_width()) == spec_encode_elems(data),
    ensures
        spec_decode_elems::<T>(b, start, data.len() as int) == data,
{
    let w = T::spec_width();
    let n = data.len() as int;
    let dec = spec_decode_elems::<T>(b, start, n);
    T::lemma_width_pos();
    lemma_encode_elems_len::<T>(data);
    assert forall|i: int| 0 <= i < n implies dec[i] == data[i] by {
        assert(0 <= i * w && i * w + w == (i + 1) * w && (i + 1) * w <= n * w)
            by (nonlinear_arith)
            requires 0 <= i < n, w >= 1;
        lemma_encode_elems_slice::<T>(data, i);
        assert(b.subrange(start + i * w, start + (i + 1) * w)
            =~= b.subrange(start, start + n * w).subrange(i * w, (i + 1) * w));
        data[i].lemma_decode_encode();
    }
    assert(dec =~= data);
}

/// Appends every element's coding to `out`.
pub fn write_payload<T: FixedBytes>(out: &mut Vec<u8>, data: &Vec<T>)
    ensures
        final(out)@ == old(out)@ + spec_encode_elems(data@),
{
    let n = data.len();
    let mut i: usize = 0;
    while i < n
        invariant
            i <= n,
            n == data@.len(),
            out@ == old(out)@ + spec_encode_elems(data@.take(i as int)),
        decreases n - i,
    {
        let x = data[i];
        x.encode_push(out);
        proof {
            lemma_encode_elems_push::<T>(data@.take(i as int), x);
            assert(data@.take(i + 1) =~= data@.take(i as int).push(x));
            assert(out@ =~= old(out)@ + spec_encode_elems(data@.take(i + 1)));
        }
        i += 1;
    }
    proof {
        assert(data@.take(n as int) =~= data@);
    }
}

/// Reads `n` elements coded at `bytes[start ..]`.
pub fn read_payload<T: FixedBytes>(bytes: &[u8], start: usize, n: usize) -> (r: Vec<T>)
    requires
        start + n * T::spec_width() <= bytes@.len(),
    ensures
        r@ == spec_decode_elems::<T>(bytes@, start as int, n as int),
{
    let w = T::width();
    let blen = bytes.len();
    let mut out: Vec<T> = Vec::new();
    let mut i: usize = 0;
    proof {
        T::lemma_width_pos();
    }
    while i < n
        invariant
            i <= n,
            w as int == T::spec_width(),
            w >= 1,
            blen == bytes@.len(),
            start + n * T::spec_width() <= bytes@.len(),
            out@ == spec_decode_elems::<T>(bytes@, start as int, i as int),
        decreases n - i,
    {
        proof {
            assert(i * (w as int) + w <= n * (w as int) && 0 <= i * (w as int))
                by (nonlinear_arith)
                requires 0 <= i < n, w >= 1;
        }
        let off = start + i * w;
        let x = T::decode_at(bytes, off);
        out.push(x);
        proof {
            assert((i + 1) * (w as int) == i * (w as int) + w) by (nonlinear_arith);
            assert(out@ =~= spec_decode_elems::<T>(bytes@, start as int, i + 1));
        }
        i += 1;
    }
    out
}

} // verus!

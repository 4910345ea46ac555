use ndarr::array2::Array2d;
use ndarr::array3::{Array3d, CopyError};
use ndarr::bitarray::BitArray3d;
use ndarr::elem::F32Bits;
use ndarr::shape::Shape;
use ndarr::{Array, ArrayView, ArrayViewMut, ArrayZeroExt};

#[test]
fn least_stride_per_rank() {
    assert_eq!(7usize.to_least_stride(), ());
    assert_eq!((5usize, 9usize).to_least_stride(), 5);
    assert_eq!((5usize, 9usize, 2usize).to_least_stride(), (5, 9));
}

#[test]
fn len_per_rank() {
    assert_eq!(7usize.len(), 7);
    assert_eq!((3usize, 4usize).len(), 12);
    assert_eq!((2usize, 3usize, 4usize).len(), 24);
    assert_eq!((2usize, 3usize, 0usize).len(), 0);
}

#[test]
fn offset_per_rank() {
    assert_eq!(5usize.offset(()), 5);
    assert_eq!((1usize, 2usize).offset(3), 7);
    assert_eq!((1usize, 1usize, 1usize).offset((2, 2)), 7);
    assert_eq!((1usize, 2usize, 3usize).offset((4, 4)), 57);
}

#[test]
fn least_offsets_cover_the_box_without_collision() {
    let bound = (3usize, 4usize);
    let stride = bound.to_least_stride();
    let mut seen = vec![false; bound.len()];
    for c1 in 0..bound.1 {
        for c0 in 0..bound.0 {
            let k = (c0, c1).offset(stride);
            assert!(k < bound.len());
            assert!(!seen[k]);
            seen[k] = true;
        }
    }
    assert!(seen.iter().all(|&s| s));
}

#[test]
fn major_iter_walks_axis0_fastest() {
    let mut it = (2usize, 2usize, 2usize).major_iter();
    let mut got = Vec::new();
    while let Some(c) = it.next() {
        got.push(c);
    }
    assert_eq!(
        got,
        vec![(1, 0, 0), (0, 1, 0), (1, 1, 0), (0, 0, 1), (1, 0, 1), (0, 1, 1), (1, 1, 1)]
    );
}

#[test]
fn rank2_zeros_is_all_zero() {
    let a: Array2d<u8> = Array2d::zeros((2, 3));
    assert_eq!(a.as_slice(), &[0u8; 6]);
    assert_eq!(a.as_view().bound(), (2, 3));
    assert_eq!(a.as_view().stride(), 2);
    assert_eq!(a.as_view().len(), 6);
}

#[test]
fn rank2_float_zeros_write_one_element() {
    let bound = (3usize, 4usize);
    let mut a: Array2d<F32Bits> = Array2d::zeros(bound);
    assert_eq!(a.as_view().len(), 12);
    let k = (1usize, 2usize).offset(bound.to_least_stride());
    assert_eq!(k, 7);
    a.as_mut_slice()[k] = F32Bits { bits: 7.0f32.to_bits() };
    for (i, e) in a.as_slice().iter().enumerate() {
        let x = f32::from_bits(e.bits);
        if i == 7 {
            assert_eq!(x, 7.0f32);
        } else {
            assert_eq!(x, 0.0f32);
        }
    }
}

#[test]
fn rank3_with_data_keeps_the_buffer() {
    let a = Array3d::with_data(vec![1u8, 2, 3, 4, 5, 6], (1, 2, 3));
    assert_eq!(a.bound(), (1, 2, 3));
    assert_eq!(a.stride(), (1, 2));
    assert_eq!(a.as_slice(), &[1, 2, 3, 4, 5, 6]);
    assert_eq!(a.as_view().len(), 6);
}

#[test]
fn sub_view_bound_is_hi_minus_lo() {
    let mut a: Array3d<u8> = Array3d::zeros((4, 4, 4));
    let vm = a.as_view_mut();
    let sub = vm.view_mut((1, 2, 3), (3, 4, 4));
    assert_eq!(sub.bound(), (2, 2, 1));
    assert_eq!(sub.stride(), (4, 4));
}

#[test]
fn sub_view_writes_show_through_the_parent() {
    let mut a: Array3d<u8> = Array3d::zeros((4, 4, 4));
    {
        let vm = a.as_view_mut();
        let mut sub = vm.view_mut((1, 2, 3), (3, 4, 4));
        sub.put(0, 42);
        sub.put(1, 43);
        assert_eq!(sub.get(0), 42);
    }
    let base = (1usize, 2usize, 3usize).offset((4, 4));
    assert_eq!(base, 57);
    let s = a.as_slice();
    assert_eq!(s[57], 42);
    assert_eq!(s[58], 43);
    for (i, &e) in s.iter().enumerate() {
        if i != 57 && i != 58 {
            assert_eq!(e, 0);
        }
    }
}

#[test]
fn copy_from_equal_bounds_copies_everything() {
    let src = Array3d::with_data(vec![9u8, 8, 7, 6], (2, 2, 1));
    let mut dst: Array3d<u8> = Array3d::zeros((2, 2, 1));
    let mut vm = dst.as_view_mut();
    let r = vm.copy_from(&src.as_view());
    assert_eq!(r, Ok(()));
    assert_eq!(dst.as_slice(), &[9, 8, 7, 6]);
}

#[test]
fn copy_from_differing_bounds_fails_fast() {
    let src: Array3d<u8> = Array3d::zeros((2, 2, 2));
    let mut dst: Array3d<u8> = Array3d::zeros((2, 2, 1));
    let mut vm = dst.as_view_mut();
    assert_eq!(vm.copy_from(&src.as_view()), Err(CopyError::BoundMismatch));
    assert_eq!(dst.as_slice(), &[0u8; 4]);
}

#[test]
fn copy_from_strided_window_is_unsupported() {
    let src: Array3d<u8> = Array3d::zeros((1, 2, 1));
    let mut dst: Array3d<u8> = Array3d::zeros((2, 2, 2));
    let vm = dst.as_view_mut();
    let mut sub = vm.view_mut((0, 0, 0), (1, 2, 1));
    assert_eq!(sub.copy_from(&src.as_view()), Err(CopyError::StrideUnsupported));
}

#[test]
fn bit_pack_sets_one_bit_per_nonzero_byte() {
    let mut a: Array3d<u8> = Array3d::zeros((2, 2, 2));
    a.as_mut_slice()[7] = 1;
    let bits = BitArray3d::from_byte_array(&a);
    assert_eq!(bits.bound(), (2, 2, 2));
    assert_eq!(bits.stride(), (2, 2));
    let back = bits.into_bytes(9);
    assert_eq!(back.bound(), (2, 2, 2));
    let s = back.as_slice();
    for (i, &e) in s.iter().enumerate() {
        if i == 7 {
            assert_eq!(e, 9);
        } else {
            assert_eq!(e, 0);
        }
    }
}

#[test]
fn bit_round_trip_restores_sentinel_arrays() {
    let data = vec![5u8, 0, 5, 5, 0, 0, 5, 0, 5, 0, 0, 5];
    let a = Array3d::with_data(data.clone(), (3, 2, 2));
    let bits = BitArray3d::from_byte_array(&a);
    let back = bits.into_bytes(5);
    assert_eq!(back.as_slice(), data.as_slice());
}

#[test]
fn write_bytes_fills_caller_storage() {
    let mut a: Array3d<u8> = Array3d::zeros((1, 2, 2));
    a.as_mut_slice()[0] = 3;
    a.as_mut_slice()[3] = 200;
    let bits = BitArray3d::from_byte_array(&a);
    let mut target: Array3d<u8> = Array3d::zeros((1, 2, 2));
    {
        let mut vm = target.as_view_mut();
        bits.write_bytes(7, &mut vm);
    }
    assert_eq!(target.as_slice(), &[7, 0, 0, 7]);
}

#[test]
fn bit_packing_spans_more_than_one_word() {
    let mut data = vec![0u8; 130];
    data[0] = 1;
    data[63] = 1;
    data[64] = 1;
    data[129] = 1;
    let a = Array3d::with_data(data.clone(), (13, 10, 1));
    let bits = BitArray3d::from_byte_array(&a);
    let back = bits.into_bytes(1);
    assert_eq!(back.as_slice(), data.as_slice());
}

use ndarr::array2::Array2d;
use ndarr::array3::Array3d;
use ndarr::bitarray::BitArray3d;
use ndarr::codec::{push_le32, push_le64, read_le32, read_le64, CodecError};
use ndarr::elem::F32Bits;
use ndarr::{Array, ArrayView, ArrayZeroExt, NdArraySerialize};

#[test]
fn le_scalar_round_trips() {
    let mut out: Vec<u8> = Vec::new();
    push_le32(&mut out, 0x1234_5678);
    push_le64(&mut out, 0xdead_beef_0102_0304);
    assert_eq!(&out[0..4], &[0x78, 0x56, 0x34, 0x12]);
    assert_eq!(read_le32(&out, 0), 0x1234_5678);
    assert_eq!(read_le64(&out, 4), 0xdead_beef_0102_0304);
}

#[test]
fn rank2_record_layout_is_exact() {
    let mut a: Array2d<u8> = Array2d::zeros((2, 3));
    for (i, e) in a.as_mut_slice().iter_mut().enumerate() {
        *e = (i + 1) as u8;
    }
    let mut out: Vec<u8> = Vec::new();
    a.serialize(&mut out);
    let header: &[u8] = &[
        0x4e, 0x44, 0, 0, // magic, version, element tag
        2, 0, 0, 0, // rank
        2, 0, 0, 0, 0, 0, 0, 0, // extent 0
        3, 0, 0, 0, 0, 0, 0, 0, // extent 1
    ];
    assert_eq!(&out[0..24], header);
    assert_eq!(&out[24..], &[1, 2, 3, 4, 5, 6]);
    assert_eq!(out.len(), Array2d::<u8>::serial_size((2, 3)));
}

#[test]
fn rank2_byte_round_trip() {
    let mut a: Array2d<u8> = Array2d::zeros((2, 3));
    for (i, e) in a.as_mut_slice().iter_mut().enumerate() {
        *e = (40 + i) as u8;
    }
    let mut out: Vec<u8> = Vec::new();
    a.serialize(&mut out);
    let b = Array2d::<u8>::deserialize(&out).unwrap();
    assert_eq!(b.as_view().bound(), (2, 3));
    assert_eq!(b.as_slice(), a.as_slice());
}

#[test]
fn rank2_float_round_trip() {
    let mut a: Array2d<F32Bits> = Array2d::zeros((3, 4));
    a.as_mut_slice()[5] = F32Bits { bits: (-1.5f32).to_bits() };
    a.as_mut_slice()[11] = F32Bits { bits: 3.25f32.to_bits() };
    let mut out: Vec<u8> = Vec::new();
    a.serialize(&mut out);
    assert_eq!(out.len(), 24 + 4 * 12);
    assert_eq!(out[3], 1); // the 32-bit float element tag
    let b = Array2d::<F32Bits>::deserialize(&out).unwrap();
    assert_eq!(b.as_slice(), a.as_slice());
    assert_eq!(f32::from_bits(b.as_slice()[5].bits), -1.5f32);
}

#[test]
fn rank3_round_trip_with_trailing_bytes() {
    let a = Array3d::with_data(vec![1u8, 2, 3, 4, 5, 6, 7, 8], (2, 2, 2));
    let mut out: Vec<u8> = Vec::new();
    a.serialize(&mut out);
    assert_eq!(out.len(), Array3d::<u8>::serial_size((2, 2, 2)));
    out.push(0xab); // a record parses the same with bytes after it
    out.push(0xcd);
    let b = Array3d::<u8>::deserialize(&out).unwrap();
    assert_eq!(b.bound(), (2, 2, 2));
    assert_eq!(b.as_slice(), a.as_slice());
}

#[test]
fn bit_packed_round_trip() {
    let mut dense: Array3d<u8> = Array3d::zeros((5, 3, 2));
    dense.as_mut_slice()[0] = 1;
    dense.as_mut_slice()[17] = 1;
    dense.as_mut_slice()[29] = 1;
    let bits = BitArray3d::from_byte_array(&dense);
    let mut out: Vec<u8> = Vec::new();
    bits.serialize(&mut out);
    assert_eq!(out.len(), BitArray3d::serial_size((5, 3, 2)));
    assert_eq!(out.len(), 32 + 8); // 30 bits pack into one word
    assert_eq!(out[3], 255); // the reserved bit-packed tag
    let back = BitArray3d::deserialize(&out).unwrap();
    assert_eq!(back.bound(), (5, 3, 2));
    assert_eq!(back.into_bytes(1).as_slice(), dense.as_slice());
}

#[test]
fn serial_size_matches_bytes_written() {
    assert_eq!(Array2d::<u8>::serial_size((2, 3)), 30);
    assert_eq!(Array2d::<F32Bits>::serial_size((3, 4)), 72);
    assert_eq!(Array3d::<u8>::serial_size((2, 2, 2)), 40);
    assert_eq!(BitArray3d::serial_size((2, 2, 2)), 40);
    assert_eq!(BitArray3d::serial_size((5, 5, 6)), 32 + 3 * 8);
    let a: Array3d<F32Bits> = Array3d::zeros((2, 1, 2));
    let mut out: Vec<u8> = Vec::new();
    a.serialize(&mut out);
    assert_eq!(out.len(), Array3d::<F32Bits>::serial_size((2, 1, 2)));
}

fn sample_record() -> Vec<u8> {
    let a = Array3d::with_data(vec![1u8, 2, 3, 4], (4, 1, 1));
    let mut out: Vec<u8> = Vec::new();
    a.serialize(&mut out);
    out
}

#[test]
fn wrong_magic_fails_fast() {
    let mut r = sample_record();
    r[0] = b'X';
    assert!(matches!(Array3d::<u8>::deserialize(&r), Err(CodecError::BadMagic)));
    let mut r2 = sample_record();
    r2[1] = 0;
    assert!(matches!(Array3d::<u8>::deserialize(&r2), Err(CodecError::BadMagic)));
}

#[test]
fn wrong_version_fails_fast() {
    let mut r = sample_record();
    r[2] = 1;
    assert!(matches!(Array3d::<u8>::deserialize(&r), Err(CodecError::BadVersion)));
}

#[test]
fn wrong_element_tag_fails_fast() {
    let r = sample_record(); // element tag 0: bytes
    assert!(matches!(Array3d::<F32Bits>::deserialize(&r), Err(CodecError::BadElemType)));
    assert!(matches!(BitArray3d::deserialize(&r), Err(CodecError::BadElemType)));
}

#[test]
fn wrong_rank_fails_fast() {
    let r = sample_record(); // rank 3
    assert!(matches!(Array2d::<u8>::deserialize(&r), Err(CodecError::BadRank)));
}

#[test]
fn oversized_extents_fail_fast_without_allocating() {
    let mut r: Vec<u8> = vec![0x4e, 0x44, 0, 0, 3, 0, 0, 0];
    for _ in 0..3 {
        push_le64(&mut r, u64::MAX);
    }
    assert!(matches!(Array3d::<u8>::deserialize(&r), Err(CodecError::InvalidShape)));
}

#[test]
fn truncated_input_fails_fast() {
    assert!(matches!(Array3d::<u8>::deserialize(&[0x4e]), Err(CodecError::Truncated)));
    let r = sample_record();
    assert!(matches!(Array3d::<u8>::deserialize(&r[0..20]), Err(CodecError::Truncated)));
    assert!(matches!(Array3d::<u8>::deserialize(&r[0..r.len() - 1]), Err(CodecError::Truncated)));
}

#[test]
fn empty_bound_round_trips() {
    let a: Array3d<u8> = Array3d::zeros((0, 3, 2));
    let mut out: Vec<u8> = Vec::new();
    a.serialize(&mut out);
    assert_eq!(out.len(), 32);
    let b = Array3d::<u8>::deserialize(&out).unwrap();
    assert_eq!(b.bound(), (0, 3, 2));
    assert_eq!(b.as_slice().len(), 0);
}

#[test]
fn multi_word_bit_record_round_trips() {
    let mut dense: Array3d<u8> = Array3d::zeros((13, 10, 1));
    dense.as_mut_slice()[0] = 1;
    dense.as_mut_slice()[63] = 1;
    dense.as_mut_slice()[64] = 1;
    dense.as_mut_slice()[129] = 1;
    let bits = BitArray3d::from_byte_array(&dense);
    let mut out: Vec<u8> = Vec::new();
    bits.serialize(&mut out);
    assert_eq!(out.len(), 32 + 3 * 8); // 130 bits pack into three words
    let back = BitArray3d::deserialize(&out).unwrap();
    assert_eq!(back.bound(), (13, 10, 1));
    assert_eq!(back.into_bytes(1).as_slice(), dense.as_slice());
}

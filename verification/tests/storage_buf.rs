use jix::error::ErrorKind;
use jix::storage::buf::check_out_buf;
use jix::storage::buf::StridedBuf;
use jix::storage::out_buf::OutBuf;

#[test]
fn strided_buf_from_slice_is_read_only() {
    let bytes = [1u8, 2, 3, 4];
    let buf = StridedBuf::from_slice(&bytes, &[2, 1]);
    assert!(!buf.is_writable());
    assert_eq!(buf.strides(), &[2, 1]);
    let (data, strides) = buf.data();
    assert_eq!(data, &[1, 2, 3, 4]);
    assert_eq!(strides, &[2, 1]);
}

#[test]
fn strided_buf_from_slice_mut_writes_through() {
    let mut bytes = [0u8; 4];
    {
        let mut buf = StridedBuf::from_slice_mut(&mut bytes, &[1]);
        assert!(buf.is_writable());
        buf.data_mut()[2] = 9;
        assert_eq!(buf.data().0, &[0, 0, 9, 0]);
    }
    assert_eq!(bytes, [0, 0, 9, 0]);
}

#[test]
fn strided_buf_from_vec_owns_its_bytes() {
    let mut buf = StridedBuf::from_vec(vec![7u8, 8, 9], &[1]);
    assert!(buf.is_writable());
    buf.data_mut()[0] = 1;
    assert_eq!(buf.data().0, &[1, 8, 9]);
}

#[test]
fn strided_buf_with_strides_keeps_the_bytes() {
    let bytes = [1u8, 2, 3, 4, 5, 6];
    let buf = StridedBuf::from_slice(&bytes, &[3, 1]).with_strides(&[1, 2]);
    assert_eq!(buf.strides(), &[1, 2]);
    assert_eq!(buf.data().0, &[1, 2, 3, 4, 5, 6]);
    assert!(!buf.is_writable());
}

#[test]
fn strided_buf_with_offset_skips_leading_bytes() {
    let bytes = [1u8, 2, 3, 4];
    let buf = StridedBuf::from_slice(&bytes, &[1]).with_offset(1);
    assert_eq!(buf.data().0, &[2, 3, 4]);
    assert_eq!(buf.strides(), &[1]);

    let owned = StridedBuf::from_vec(vec![5u8, 6, 7], &[1]).with_offset(2);
    assert!(owned.is_writable());
    assert_eq!(owned.data().0, &[7]);

    let mut raw = [1u8, 2, 3];
    let mut shifted = StridedBuf::from_slice_mut(&mut raw, &[1]).with_offset(3);
    assert_eq!(shifted.data_mut().len(), 0);
}

#[test]
fn strided_buf_view_is_read_only() {
    let buf = StridedBuf::from_vec(vec![1u8, 2], &[1]);
    let view = buf.view();
    assert!(!view.is_writable());
    assert_eq!(view.data().0, &[1, 2]);
    assert_eq!(view.strides(), &[1]);
}

#[test]
fn strided_buf_is_contiguous_for_row_major_strides() {
    let bytes = [0u8; 24];
    assert!(StridedBuf::from_slice(&bytes, &[12, 4]).is_contiguous(&[2, 3], 4));
    assert!(!StridedBuf::from_slice(&bytes, &[4, 8]).is_contiguous(&[2, 3], 4));
    assert!(!StridedBuf::from_slice(&bytes, &[4]).is_contiguous(&[2, 3], 4));
}

#[test]
fn out_buf_lazy_allocates_on_first_demand() {
    let mut out = OutBuf::new_lazy();
    assert!(out.as_slice().is_none());
    assert!(out.as_mut_slice().is_none());
    let slice = out.get_mut(&[0..2, 1..4], 4);
    assert_eq!(slice.len(), 24);
    assert!(slice.iter().all(|&b| b == 0));
    slice[5] = 3;
    assert_eq!(out.as_slice().unwrap().len(), 24);
    assert_eq!(out.as_slice().unwrap()[5], 3);
    out.as_mut_slice().unwrap()[6] = 4;
    assert_eq!(out.as_slice().unwrap()[6], 4);
}

#[test]
fn out_buf_hands_back_the_callers_buffer() {
    let mut bytes = [1u8, 2, 3];
    {
        let mut out = OutBuf::new(&mut bytes);
        let slice = out.get_mut(&[0..10], 8);
        assert_eq!(slice, &[1, 2, 3]);
        slice[0] = 5;
        assert_eq!(out.as_slice(), Some(&[5u8, 2, 3][..]));
    }
    assert_eq!(bytes, [5, 2, 3]);
}

#[test]
fn check_out_buf_accepts_a_matching_writable_destination() {
    assert!(check_out_buf(None, &[2, 3]).is_ok());
    let mut bytes = [0u8; 6];
    let w = StridedBuf::from_slice_mut(&mut bytes, &[3, 1]);
    assert!(check_out_buf(Some(&w), &[2, 3]).is_ok());
    assert_eq!(check_out_buf(Some(&w), &[6]).unwrap_err().kind, ErrorKind::InvalidArgument);
    let ro_bytes = [0u8; 6];
    let ro = StridedBuf::from_slice(&ro_bytes, &[3, 1]);
    assert_eq!(check_out_buf(Some(&ro), &[2, 3]).unwrap_err().kind, ErrorKind::InvalidArgument);
}

#[test]
fn strided_buf_copy_from_scatters_into_its_strides() {
    let mut dst = StridedBuf::from_vec(vec![0u8; 6], &[1, 2]);
    // source is a row-major 2x3 of one-byte elements
    dst.copy_from(&[1, 2, 3, 4, 5, 6], &[3, 1], &[2, 3], 1);
    assert_eq!(dst.data().0, &[1, 4, 2, 5, 3, 6]);
}

use jix::util::nd_copy::NdCopier;

// Byte strides for a row-major array whose backing shape is `shape[d] * mult[d]`, sampling one
// logical element every `mult[d]` slots along axis `d`.
fn strided_strides(shape: &[usize], mult: &[usize], itemsize: usize) -> Vec<usize> {
    let ndim = shape.len();
    let backing = (0..ndim).map(|d| shape[d] * mult[d]).collect::<Vec<_>>();
    let mut cstr = vec![0usize; ndim];
    let mut acc = itemsize;
    for d in (0..ndim).rev() {
        cstr[d] = acc;
        acc *= backing[d];
    }
    (0..ndim).map(|d| cstr[d] * mult[d]).collect()
}

// Number of bytes needed to hold every element of `shape` at the given byte strides.
fn buf_len(shape: &[usize], strides: &[usize], itemsize: usize) -> usize {
    if shape.contains(&0) {
        return 0;
    }
    let max_off: usize = shape.iter().zip(strides).map(|(&s, &st)| (s - 1) * st).sum();
    max_off + itemsize
}

// An independent, naive nd copy over raw bytes, element by element in row-major order.
fn reference_copy(
    src: &[u8],
    dst_len: usize,
    shape: &[usize],
    src_strides: &[usize],
    dst_strides: &[usize],
    itemsize: usize,
) -> Vec<u8> {
    let ndim = shape.len();
    let mut dst = vec![0u8; dst_len];
    let total: usize = shape.iter().product();
    let mut idx = vec![0usize; ndim];
    for _ in 0..total {
        let src_off: usize = (0..ndim).map(|d| idx[d] * src_strides[d]).sum();
        let dst_off: usize = (0..ndim).map(|d| idx[d] * dst_strides[d]).sum();
        dst[dst_off..dst_off + itemsize].copy_from_slice(&src[src_off..src_off + itemsize]);
        for d in (0..ndim).rev() {
            idx[d] += 1;
            if idx[d] < shape[d] {
                break;
            }
            idx[d] = 0;
        }
    }
    dst
}

// One copy through `NdCopier` for elements of `itemsize` bytes, with both buffers starting
// `misalign` bytes into their backing storage, checked byte for byte against the reference.
fn check(itemsize: usize, shape: &[usize], src_strides: &[usize], dst_strides: &[usize], misalign: usize) {
    assert_eq!(src_strides.len(), shape.len());
    assert_eq!(dst_strides.len(), shape.len());
    let src_len = buf_len(shape, src_strides, itemsize);
    let dst_len = buf_len(shape, dst_strides, itemsize);

    let mut src_backing = vec![0u8; src_len + misalign];
    for i in 0..src_len {
        src_backing[misalign + i] = (i as u8).wrapping_mul(37).wrapping_add(11);
    }
    let src = &src_backing[misalign..];
    let expected = reference_copy(src, dst_len, shape, src_strides, dst_strides, itemsize);

    let mut dst_backing = vec![0u8; dst_len + misalign];
    let copier = NdCopier::new(itemsize);
    copier.copy(src, &mut dst_backing[misalign..], shape, src_strides, dst_strides);
    assert_eq!(
        &dst_backing[misalign..],
        expected.as_slice(),
        "itemsize={itemsize} misalign={misalign} shape={shape:?} \
         src_strides={src_strides:?} dst_strides={dst_strides:?}"
    );
}

fn strided_axis(ndim: usize, ax: usize) -> Vec<usize> {
    (0..ndim).map(|d| if d == ax { 2 } else { 1 }).collect()
}

fn check_rank(itemsize: usize, shape: &[usize]) {
    let ndim = shape.len();
    let cont = strided_strides(shape, &vec![1; ndim], itemsize);
    let outer = strided_strides(shape, &strided_axis(ndim, 0), itemsize);
    let inner = strided_strides(shape, &strided_axis(ndim, ndim.wrapping_sub(1)), itemsize);
    for (src, dst) in [(&cont, &cont), (&outer, &cont), (&inner, &inner)] {
        for misalign in [0, 1] {
            check(itemsize, shape, src, dst, misalign);
        }
    }
}

fn check_all_dims(itemsize: usize) {
    check_rank(itemsize, &[]);
    check_rank(itemsize, &[7]);
    check_rank(itemsize, &[3, 4]);
    check_rank(itemsize, &[2, 3, 4]);
    check_rank(itemsize, &[2, 2, 3, 3]);
    check_rank(itemsize, &[2, 2, 2, 3, 3]);
    check_rank(itemsize, &[2, 2, 2, 2, 3, 3]);
    check_rank(itemsize, &[2, 2, 2, 2, 2, 2, 3]);
    check_rank(itemsize, &[2, 2, 2, 2, 2, 2, 2, 2]);
    for k in [1, 2, 3, 4, 8, 16, 32, 64] {
        check_rank(itemsize, &[3, k]);
    }
}

fn check_zero_extent(itemsize: usize) {
    for shape in [vec![0usize], vec![3, 0], vec![2, 0, 4]] {
        let strides = strided_strides(&shape, &vec![1; shape.len()], itemsize);
        for misalign in [0, 1] {
            check(itemsize, &shape, &strides, &strides, misalign);
        }
    }
}

#[test]
fn copy_u8() {
    check_all_dims(1);
}

#[test]
fn copy_u16() {
    check_all_dims(2);
}

#[test]
fn copy_u32() {
    check_all_dims(4);
}

#[test]
fn copy_u64() {
    check_all_dims(8);
}

fn check_unit_axis(is: usize) {
    for unit in [0, 5 * is] {
        check(is, &[4, 1, 8], &[8 * is, unit, is], &[8 * is, unit, is], 0);
        check(is, &[4, 1, 8], &[16 * is, unit, is], &[16 * is, unit, is], 0);
    }
    check(is, &[1, 4, 8], &[7 * is, 8 * is, is], &[7 * is, 8 * is, is], 0);
    check(is, &[4, 8, 1], &[8 * is, is, 3 * is], &[8 * is, is, 3 * is], 0);
    check(is, &[4, 1, 8], &[8 * is, 0, is], &[8 * is, 0, is], 1);
}

#[test]
fn copy_unit_axis() {
    check_unit_axis(4);
    check_unit_axis(8);
    check_unit_axis(12);
    check_unit_axis(3);
}

fn check_1d_sides(is: usize, inner: usize) {
    let cont = [inner * is, is];
    let strided = [2 * inner * is, is];
    for (src, dst) in [(&cont, &cont), (&cont, &strided), (&strided, &cont), (&strided, &strided)] {
        for misalign in [0, 1] {
            check(is, &[4, inner], src, dst, misalign);
        }
    }
}

#[test]
fn copy_1d_sides() {
    check_1d_sides(4, 8);
    check_1d_sides(4, 3);
    check_1d_sides(8, 8);
    check_1d_sides(8, 3);
}

// A struct of an i32, two i16 and an i32, with no padding: 12 bytes.
#[test]
fn copy_struct() {
    check_all_dims(12);
}

#[test]
fn copy_dynamic_itemsize_12() {
    check_all_dims(12);
}

#[test]
fn copy_dynamic_odd_itemsize() {
    check_all_dims(3);
}

#[test]
fn copy_zero_extent() {
    check_zero_extent(1);
    check_zero_extent(8);
    check_zero_extent(16);
    check_zero_extent(12);
    check_zero_extent(3);
}

struct Lcg(u64);
impl Lcg {
    fn next(&mut self, bound: usize) -> usize {
        self.0 = self.0.wrapping_mul(6364136223846793005).wrapping_add(1442695040888963407);
        ((self.0 >> 33) as usize) % bound
    }
}

fn fuzz(itemsize: usize) {
    let mut rng = Lcg(0xC0FF_EE12_3456_789A_u64 ^ itemsize as u64);
    for _ in 0..64 {
        let ndim = rng.next(7);
        let shape: Vec<usize> = (0..ndim).map(|_| 1 + rng.next(3)).collect();
        let src_mult: Vec<usize> = (0..ndim).map(|_| 1 + rng.next(3)).collect();
        let dst_mult: Vec<usize> = (0..ndim).map(|_| 1 + rng.next(3)).collect();
        let misalign = rng.next(2);
        let src_strides = strided_strides(&shape, &src_mult, itemsize);
        let dst_strides = strided_strides(&shape, &dst_mult, itemsize);
        if buf_len(&shape, &src_strides, itemsize).max(buf_len(&shape, &dst_strides, itemsize)) > 8 * 1024 {
            continue;
        }
        check(itemsize, &shape, &src_strides, &dst_strides, misalign);
    }
}

#[test]
fn fuzz_random() {
    fuzz(4);
    fuzz(8);
    fuzz(16);
    fuzz(12);
    fuzz(3);
}

#[test]
fn copy_leaves_bytes_outside_the_region_alone() {
    // Copy a 2 x 2 block of 1-byte elements into the corners of a 3 x 3 grid.
    let src = [1u8, 2, 3, 4];
    let mut dst = [9u8; 9];
    NdCopier::new(1).copy(&src, &mut dst, &[2, 2], &[2, 1], &[6, 2]);
    assert_eq!(dst, [1, 9, 2, 9, 9, 9, 3, 9, 4]);
}

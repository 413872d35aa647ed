use jix::util::iter::nd::NdIter;
use jix::util::iter::strides::NdIterExtStridesOffset;

fn offsets<S: Copy>(mut iter: NdIter<NdIterExtStridesOffset<S>>) -> Vec<S>
where
    NdIterExtStridesOffset<S>: jix::util::iter::nd::NdIterExtension<Item = S>,
{
    let mut out = Vec::new();
    while let Some((_, offset)) = iter.next() {
        out.push(offset);
    }
    out
}

#[test]
fn strides_offset_1d_stride_1() {
    let ext = NdIterExtStridesOffset::new(vec![1usize], 0);
    let iter = NdIter::new(vec![8u64], ext);
    let got = offsets(iter);
    for (i, offset) in got.iter().enumerate() {
        assert_eq!(*offset, i, "step {i}");
    }
    assert_eq!(got.len(), 8);
}

#[test]
fn strides_offset_1d_larger_stride() {
    let stride = 8usize;
    let ext = NdIterExtStridesOffset::new(vec![stride], 0);
    let iter = NdIter::new(vec![8u64], ext);
    let got = offsets(iter);
    for (i, offset) in got.iter().enumerate() {
        assert_eq!(*offset, i * stride, "step {i}");
    }
    assert_eq!(got.len(), 8);
}

#[test]
fn strides_offset_2d_row_major_contiguous() {
    let rows = 3usize;
    let cols = 4usize;
    let elem = 4usize;
    let ext = NdIterExtStridesOffset::new(vec![cols * elem, elem], 0);
    let iter = NdIter::new(vec![rows as u64, cols as u64], ext);
    let got = offsets(iter);
    for (flat, offset) in got.iter().enumerate() {
        assert_eq!(*offset, flat * elem, "flat index {flat}");
    }
    assert_eq!(got.len(), rows * cols);
}

#[test]
fn strides_offset_2d_non_contiguous_column_major() {
    // A column-major 2x3 layout: row stride 1, column stride 2.
    let rows = 2usize;
    let cols = 3usize;
    let ext = NdIterExtStridesOffset::new(vec![1, rows], 0);
    let iter = NdIter::new(vec![rows as u64, cols as u64], ext);
    let expected_offsets: &[usize] = &[0, 2, 4, 1, 3, 5];
    let got = offsets(iter);
    assert_eq!(got, expected_offsets);
    assert_eq!(got.len(), rows * cols);
}

#[test]
fn strides_offset_with_begin_offset() {
    // begin [1, 1], end [3, 3], strides [4, 1]: the walk starts at offset 1 * 4 + 1 * 1 = 5.
    let ext = NdIterExtStridesOffset::new(vec![4usize, 1], 4 + 1);
    let iter = NdIter::new_with_begin(vec![1u64, 1], vec![3u64, 3], ext);
    assert_eq!(offsets(iter), vec![5, 6, 9, 10]);
}

#[test]
fn strides_offset_empty_range_yields_no_offsets() {
    let ext = NdIterExtStridesOffset::new(vec![4usize, 1], 0);
    let mut iter = NdIter::new_with_begin(vec![2u64, 2], vec![2u64, 5], ext);
    assert!(iter.next().is_none());
}

#[test]
fn strides_offset_u64_offsets() {
    let ext = NdIterExtStridesOffset::new(vec![3u64, 1], 0u64);
    let iter = NdIter::new(vec![2u64, 3], ext);
    assert_eq!(offsets(iter), vec![0, 1, 2, 3, 4, 5]);
}

#[test]
fn strides_offset_2d_indexes_correct_elements() {
    // Walk a contiguous row-major buffer and write through each offset.
    let rows = 3usize;
    let cols = 4usize;
    let mut data = vec![0u32; rows * cols];
    let ext = NdIterExtStridesOffset::new(vec![cols, 1], 0);
    let iter = NdIter::new(vec![rows as u64, cols as u64], ext);
    let mut flat = 0u32;
    for offset in offsets(iter) {
        assert_eq!(offset, flat as usize, "flat index {flat}");
        data[offset] = flat * 10 + 7;
        flat += 1;
    }
    assert_eq!(flat as usize, rows * cols);
    let expected: Vec<u32> = (0..(rows * cols) as u32).map(|f| f * 10 + 7).collect();
    assert_eq!(data, expected);
}

#[test]
fn strides_offset_dim1_static() {
    let ext = NdIterExtStridesOffset::new(vec![1usize], 0);
    let iter = NdIter::new(vec![8u64], ext);
    let got = offsets(iter);
    for (i, offset) in got.iter().enumerate() {
        assert_eq!(*offset, i, "step {i}");
    }
    assert_eq!(got.len(), 8);
}

#[test]
fn strides_offset_dim2_static() {
    let rows = 3usize;
    let cols = 4usize;
    let elem = 4usize;
    let ext = NdIterExtStridesOffset::new(vec![cols * elem, elem], 0);
    let iter = NdIter::new(vec![rows as u64, cols as u64], ext);
    let got = offsets(iter);
    for (flat, offset) in got.iter().enumerate() {
        assert_eq!(*offset, flat * elem, "flat index {flat}");
    }
    assert_eq!(got.len(), rows * cols);
}

use jix::util::calc_block_end;
use jix::util::iter::block::NdIterExtBlockOffsetSize;
use jix::util::iter::nd::NdIter;

fn make_iter(begin: &[u64], end: &[u64], block: &[u64]) -> NdIter<NdIterExtBlockOffsetSize> {
    let ext = NdIterExtBlockOffsetSize::new(begin, end, block.to_vec());
    let (block_begin, block_end) = begin
        .iter()
        .zip(end)
        .zip(block)
        .map(|((&b, &e), &c)| (b / c, calc_block_end(b, e, c)))
        .unzip::<_, _, Vec<_>, Vec<_>>();

    NdIter::new_with_begin(block_begin, block_end, ext)
}

#[derive(Debug, PartialEq)]
struct BlocksIterItemOwned {
    block_idx: Vec<u64>,
    inner_offset: Vec<u64>,
    block_size: Vec<u64>,
}

fn collect(mut iter: NdIter<NdIterExtBlockOffsetSize>) -> Vec<BlocksIterItemOwned> {
    let mut out = Vec::new();
    while let Some((block_idx, (inner_offset, block_size))) = iter.next() {
        out.push(BlocksIterItemOwned {
            block_idx,
            inner_offset,
            block_size,
        });
    }
    out
}

fn item(block_idx: &[u64], inner_offset: &[u64], block_size: &[u64]) -> BlocksIterItemOwned {
    BlocksIterItemOwned {
        block_idx: block_idx.to_vec(),
        inner_offset: inner_offset.to_vec(),
        block_size: block_size.to_vec(),
    }
}

#[test]
fn full_1d_one_block() {
    assert_eq!(
        collect(make_iter(&[0], &[4], &[4])),
        vec![item(&[0], &[0], &[4])],
    );
}

#[test]
fn full_1d_two_blocks() {
    assert_eq!(
        collect(make_iter(&[0], &[6], &[3])),
        vec![item(&[0], &[0], &[3]), item(&[1], &[0], &[3])],
    );
}

#[test]
fn full_1d_three_blocks() {
    assert_eq!(
        collect(make_iter(&[0], &[9], &[3])),
        vec![
            item(&[0], &[0], &[3]),
            item(&[1], &[0], &[3]),
            item(&[2], &[0], &[3]),
        ],
    );
}

#[test]
fn single_block_full() {
    assert_eq!(
        collect(make_iter(&[0], &[3], &[3])),
        vec![item(&[0], &[0], &[3])],
    );
}

#[test]
fn single_block_offset_start() {
    assert_eq!(
        collect(make_iter(&[1], &[3], &[3])),
        vec![item(&[0], &[1], &[2])],
    );
}

#[test]
fn single_block_interior_slice() {
    assert_eq!(
        collect(make_iter(&[1], &[2], &[3])),
        vec![item(&[0], &[1], &[1])],
    );
}

#[test]
fn single_block_in_middle_of_array() {
    assert_eq!(
        collect(make_iter(&[3], &[5], &[3])),
        vec![item(&[1], &[0], &[2])],
    );
}

#[test]
fn single_block_mid_offset_in_middle_of_array() {
    assert_eq!(
        collect(make_iter(&[4], &[5], &[3])),
        vec![item(&[1], &[1], &[1])],
    );
}

#[test]
fn non_aligned_start_two_blocks() {
    assert_eq!(
        collect(make_iter(&[1], &[6], &[3])),
        vec![item(&[0], &[1], &[2]), item(&[1], &[0], &[3])],
    );
}

#[test]
fn non_aligned_start_three_blocks() {
    assert_eq!(
        collect(make_iter(&[2], &[9], &[3])),
        vec![
            item(&[0], &[2], &[1]),
            item(&[1], &[0], &[3]),
            item(&[2], &[0], &[3]),
        ],
    );
}

#[test]
fn start_at_block_boundary() {
    assert_eq!(
        collect(make_iter(&[3], &[9], &[3])),
        vec![item(&[1], &[0], &[3]), item(&[2], &[0], &[3])],
    );
}

#[test]
fn non_aligned_end_two_blocks() {
    assert_eq!(
        collect(make_iter(&[0], &[5], &[3])),
        vec![item(&[0], &[0], &[3]), item(&[1], &[0], &[2])],
    );
}

#[test]
fn non_aligned_end_three_blocks() {
    assert_eq!(
        collect(make_iter(&[0], &[10], &[4])),
        vec![
            item(&[0], &[0], &[4]),
            item(&[1], &[0], &[4]),
            item(&[2], &[0], &[2]),
        ],
    );
}

#[test]
fn end_aligned_to_block_boundary_within_array() {
    assert_eq!(
        collect(make_iter(&[0], &[6], &[3])),
        vec![item(&[0], &[0], &[3]), item(&[1], &[0], &[3])],
    );
}

#[test]
fn non_aligned_both_two_blocks() {
    assert_eq!(
        collect(make_iter(&[1], &[5], &[3])),
        vec![item(&[0], &[1], &[2]), item(&[1], &[0], &[2])],
    );
}

#[test]
fn non_aligned_both_three_blocks() {
    assert_eq!(
        collect(make_iter(&[1], &[7], &[3])),
        vec![
            item(&[0], &[1], &[2]),
            item(&[1], &[0], &[3]),
            item(&[2], &[0], &[1]),
        ],
    );
}

#[test]
fn non_aligned_both_four_blocks() {
    assert_eq!(
        collect(make_iter(&[1], &[11], &[4])),
        vec![
            item(&[0], &[1], &[3]),
            item(&[1], &[0], &[4]),
            item(&[2], &[0], &[3]),
        ],
    );
}

#[test]
fn block_larger_than_range() {
    assert_eq!(
        collect(make_iter(&[2], &[6], &[8])),
        vec![item(&[0], &[2], &[4])],
    );
}

#[test]
fn full_2d_aligned() {
    assert_eq!(
        collect(make_iter(&[0, 0], &[6, 4], &[3, 2])),
        vec![
            item(&[0, 0], &[0, 0], &[3, 2]),
            item(&[0, 1], &[0, 0], &[3, 2]),
            item(&[1, 0], &[0, 0], &[3, 2]),
            item(&[1, 1], &[0, 0], &[3, 2]),
        ],
    );
}

#[test]
fn full_2d_asymmetric_blocks() {
    assert_eq!(
        collect(make_iter(&[0, 0], &[4, 9], &[2, 3])),
        vec![
            item(&[0, 0], &[0, 0], &[2, 3]),
            item(&[0, 1], &[0, 0], &[2, 3]),
            item(&[0, 2], &[0, 0], &[2, 3]),
            item(&[1, 0], &[0, 0], &[2, 3]),
            item(&[1, 1], &[0, 0], &[2, 3]),
            item(&[1, 2], &[0, 0], &[2, 3]),
        ],
    );
}

#[test]
fn non_aligned_start_2d() {
    assert_eq!(
        collect(make_iter(&[1, 1], &[6, 4], &[3, 2])),
        vec![
            item(&[0, 0], &[1, 1], &[2, 1]),
            item(&[0, 1], &[1, 0], &[2, 2]),
            item(&[1, 0], &[0, 1], &[3, 1]),
            item(&[1, 1], &[0, 0], &[3, 2]),
        ],
    );
}

#[test]
fn non_aligned_start_2d_asymmetric() {
    assert_eq!(
        collect(make_iter(&[1, 2], &[9, 9], &[3, 3])),
        vec![
            item(&[0, 0], &[1, 2], &[2, 1]),
            item(&[0, 1], &[1, 0], &[2, 3]),
            item(&[0, 2], &[1, 0], &[2, 3]),
            item(&[1, 0], &[0, 2], &[3, 1]),
            item(&[1, 1], &[0, 0], &[3, 3]),
            item(&[1, 2], &[0, 0], &[3, 3]),
            item(&[2, 0], &[0, 2], &[3, 1]),
            item(&[2, 1], &[0, 0], &[3, 3]),
            item(&[2, 2], &[0, 0], &[3, 3]),
        ],
    );
}

#[test]
fn non_aligned_both_2d() {
    assert_eq!(
        collect(make_iter(&[1, 1], &[7, 7], &[3, 3])),
        vec![
            item(&[0, 0], &[1, 1], &[2, 2]),
            item(&[0, 1], &[1, 0], &[2, 3]),
            item(&[0, 2], &[1, 0], &[2, 1]),
            item(&[1, 0], &[0, 1], &[3, 2]),
            item(&[1, 1], &[0, 0], &[3, 3]),
            item(&[1, 2], &[0, 0], &[3, 1]),
            item(&[2, 0], &[0, 1], &[1, 2]),
            item(&[2, 1], &[0, 0], &[1, 3]),
            item(&[2, 2], &[0, 0], &[1, 1]),
        ],
    );
}

#[test]
fn full_3d_aligned() {
    let got = collect(make_iter(&[0, 0, 0], &[4, 6, 8], &[2, 3, 4]));
    let expected = (0..2)
        .flat_map(|i| {
            (0..2).flat_map(move |j| {
                (0..2).map(move |k| item(&[i, j, k], &[0, 0, 0], &[2, 3, 4]))
            })
        })
        .collect::<Vec<_>>();
    assert_eq!(got, expected);
}

use std::ops::Range;

use jix::error::ErrorKind;
use jix::storage::compact::{
    block_strides, copy_block_part, plan_compact_read, run_compact_read, CompactRead,
};

/// Row-major strides of `shape` in bytes.
fn c_strides(shape: &[usize], itemsize: usize) -> Vec<usize> {
    let mut strides = vec![0usize; shape.len()];
    let mut acc = itemsize;
    for d in (0..shape.len()).rev() {
        strides[d] = acc;
        acc *= shape[d];
    }
    strides
}

/// The item at `idx` of the logical array: a distinct `itemsize`-byte pattern per position.
fn item_bytes(shape: &[u64], idx: &[u64], itemsize: usize) -> Vec<u8> {
    let mut flat = 0u64;
    for d in 0..shape.len() {
        flat = flat * shape[d] + idx[d];
    }
    (0..itemsize).map(|j| (flat as u8).wrapping_mul(7).wrapping_add(j as u8 * 101)).collect()
}

/// Every block of the array, decoded: row-major within the block, padded past the array's edge.
fn raw_blocks(shape: &[u64], block_shape: &[u32], itemsize: usize) -> Vec<Vec<u8>> {
    let ndim = shape.len();
    let grid: Vec<u64> = (0..ndim).map(|d| shape[d].div_ceil(block_shape[d] as u64)).collect();
    let nblocks: u64 = grid.iter().product();
    let block_items: u64 = block_shape.iter().map(|&b| b as u64).product();
    let mut blocks = Vec::new();
    for id in 0..nblocks {
        let mut b = vec![0u64; ndim];
        let mut rest = id;
        for d in (0..ndim).rev() {
            b[d] = rest % grid[d];
            rest /= grid[d];
        }
        let mut bytes = Vec::new();
        for k in 0..block_items {
            let mut inner = vec![0u64; ndim];
            let mut rest = k;
            for d in (0..ndim).rev() {
                inner[d] = rest % block_shape[d] as u64;
                rest /= block_shape[d] as u64;
            }
            let idx: Vec<u64> = (0..ndim).map(|d| b[d] * block_shape[d] as u64 + inner[d]).collect();
            if (0..ndim).all(|d| idx[d] < shape[d]) {
                bytes.extend(item_bytes(shape, &idx, itemsize));
            } else {
                bytes.extend(std::iter::repeat(0xEE).take(itemsize));
            }
        }
        blocks.push(bytes);
    }
    blocks
}

/// The requested region, read straight from the logical array, row-major.
fn expected_region(shape: &[u64], index: &[Range<u64>], itemsize: usize) -> Vec<u8> {
    let ndim = shape.len();
    let mut out = Vec::new();
    let region: Vec<u64> = index.iter().map(|r| r.end - r.start).collect();
    let total: u64 = region.iter().product();
    for k in 0..total {
        let mut idx = vec![0u64; ndim];
        let mut rest = k;
        for d in (0..ndim).rev() {
            idx[d] = index[d].start + rest % region[d];
            rest /= region[d];
        }
        out.extend(item_bytes(shape, &idx, itemsize));
    }
    out
}

/// Reads `index` through a plan, decoding blocks from `blocks` into a packed output.
fn read(shape: &[u64], block_shape: &[u32], index: &[Range<u64>], itemsize: usize) -> Vec<u8> {
    let blocks = raw_blocks(shape, block_shape, itemsize);
    let region: Vec<usize> = index.iter().map(|r| (r.end - r.start) as usize).collect();
    let out_strides = c_strides(&region, itemsize);
    let mut out = vec![0u8; region.iter().product::<usize>() * itemsize];
    match plan_compact_read(shape, block_shape, index, itemsize, &out_strides).unwrap() {
        CompactRead::Whole(id) => out.copy_from_slice(&blocks[id as usize]),
        CompactRead::Parts(copies) => {
            let bstr = block_strides(block_shape, itemsize);
            for copy in &copies {
                let decoded = &blocks[copy.block_id as usize];
                if copy.direct {
                    out[copy.out_start..copy.out_start + decoded.len()].copy_from_slice(decoded);
                } else {
                    copy_block_part(copy, &bstr, decoded, &mut out, &out_strides, itemsize);
                }
            }
        }
    }
    out
}

#[test]
fn aligned_single_block_into_packed_output_is_decoded_whole() {
    let index = [3..6, 2..4];
    let plan = plan_compact_read(&[6, 4], &[3, 2], &index, 1, &[2, 1]).unwrap();
    // Block (1, 1) of a 2 x 2 grid.
    assert!(matches!(plan, CompactRead::Whole(3)));
}

#[test]
fn aligned_single_block_into_strided_output_is_copied() {
    let index = [3..6, 2..4];
    let plan = plan_compact_read(&[6, 4], &[3, 2], &index, 1, &[4, 1]).unwrap();
    match plan {
        CompactRead::Parts(copies) => {
            assert_eq!(copies.len(), 1);
            assert_eq!(copies[0].block_id, 3);
            assert_eq!(copies[0].active_start, 0);
            assert_eq!(copies[0].out_start, 0);
            assert_eq!(copies[0].extent, vec![3, 2]);
            assert!(!copies[0].direct);
        }
        CompactRead::Whole(_) => panic!("a strided output cannot take a whole block"),
    }
}

#[test]
fn unaligned_single_block_copies_the_inner_part() {
    let index = [4..6, 3..4];
    let plan = plan_compact_read(&[6, 4], &[3, 2], &index, 2, &[2, 2]).unwrap();
    match plan {
        CompactRead::Parts(copies) => {
            assert_eq!(copies.len(), 1);
            assert_eq!(copies[0].block_id, 3);
            // Inner position (1, 1) of a 3 x 2 block of 2-byte items: 1 * 4 + 1 * 2.
            assert_eq!(copies[0].active_start, 6);
            assert_eq!(copies[0].out_start, 0);
            assert_eq!(copies[0].extent, vec![2, 1]);
        }
        CompactRead::Whole(_) => panic!("an unaligned region is not a whole block"),
    }
}

#[test]
fn multi_block_plan_lists_every_touched_block_in_row_major_order() {
    let index = [1..6, 1..4];
    let plan = plan_compact_read(&[6, 4], &[3, 2], &index, 1, &[3, 1]).unwrap();
    match plan {
        CompactRead::Parts(copies) => {
            let ids: Vec<u64> = copies.iter().map(|c| c.block_id).collect();
            assert_eq!(ids, vec![0, 1, 2, 3]);
            let extents: Vec<Vec<usize>> = copies.iter().map(|c| c.extent.clone()).collect();
            assert_eq!(extents, vec![vec![2, 1], vec![2, 2], vec![3, 1], vec![3, 2]]);
            let out_starts: Vec<usize> = copies.iter().map(|c| c.out_start).collect();
            assert_eq!(out_starts, vec![0, 1, 6, 7]);
            let active_starts: Vec<usize> = copies.iter().map(|c| c.active_start).collect();
            assert_eq!(active_starts, vec![3, 2, 1, 0]);
        }
        CompactRead::Whole(_) => panic!("several blocks are touched"),
    }
}

#[test]
fn full_rows_of_whole_blocks_decode_in_place() {
    // Blocks span the whole width, so a packed output lays each one out as it is.
    let index = [0..6, 0..4];
    let plan = plan_compact_read(&[6, 4], &[2, 4], &index, 1, &[4, 1]).unwrap();
    match plan {
        CompactRead::Parts(copies) => {
            assert_eq!(copies.len(), 3);
            assert!(copies.iter().all(|c| c.direct));
            let out_starts: Vec<usize> = copies.iter().map(|c| c.out_start).collect();
            assert_eq!(out_starts, vec![0, 8, 16]);
        }
        CompactRead::Whole(_) => panic!("several blocks are touched"),
    }
}

#[test]
fn partial_blocks_are_not_decoded_in_place() {
    let index = [1..6, 0..4];
    let plan = plan_compact_read(&[6, 4], &[2, 4], &index, 1, &[4, 1]).unwrap();
    match plan {
        CompactRead::Parts(copies) => {
            let direct: Vec<bool> = copies.iter().map(|c| c.direct).collect();
            assert_eq!(direct, vec![false, true, true]);
        }
        CompactRead::Whole(_) => panic!("several blocks are touched"),
    }
}

#[test]
fn empty_region_reads_nothing() {
    let plan = plan_compact_read(&[6, 4], &[3, 2], &[2..2, 0..4], 1, &[4, 1]).unwrap();
    match plan {
        CompactRead::Parts(copies) => assert!(copies.is_empty()),
        CompactRead::Whole(_) => panic!("an empty region touches no block"),
    }
}

#[test]
fn range_past_the_array_is_refused() {
    let err = plan_compact_read(&[6, 4], &[3, 2], &[0..7, 0..4], 1, &[4, 1]).err().unwrap();
    assert_eq!(err.kind(), ErrorKind::InvalidArgument);
}

#[test]
fn reversed_range_is_refused() {
    let r = 3..2;
    let err = plan_compact_read(&[6, 4], &[3, 2], &[r, 0..4], 1, &[4, 1]).err().unwrap();
    assert_eq!(err.kind(), ErrorKind::InvalidArgument);
}

#[test]
fn wrong_number_of_ranges_or_strides_is_refused() {
    let err = plan_compact_read(&[6, 4], &[3, 2], &[0..6], 1, &[4, 1]).err().unwrap();
    assert_eq!(err.kind(), ErrorKind::InvalidArgument);
    let err = plan_compact_read(&[6, 4], &[3, 2], &[0..6, 0..4], 1, &[1]).err().unwrap();
    assert_eq!(err.kind(), ErrorKind::InvalidArgument);
}

#[test]
fn reading_through_the_plan_gives_back_the_region() {
    let cases: &[(&[u64], &[u32], &[Range<u64>], usize)] = &[
        (&[6, 4], &[3, 2], &[0..6, 0..4], 1),
        (&[6, 4], &[3, 2], &[1..6, 1..4], 1),
        (&[6, 4], &[3, 2], &[4..5, 1..3], 4),
        (&[7, 5], &[3, 2], &[2..7, 0..5], 2),
        (&[7, 5], &[3, 2], &[6..7, 4..5], 1),
        (&[10], &[4], &[1..9], 8),
        (&[10], &[4], &[4..8], 1),
        (&[4, 6, 8], &[2, 3, 4], &[1..4, 2..6, 3..8], 2),
        (&[4, 6, 8], &[2, 6, 8], &[0..4, 0..6, 0..8], 1),
        (&[5, 3], &[1, 3], &[1..4, 0..3], 2),
    ];
    for &(shape, block_shape, index, itemsize) in cases {
        assert_eq!(
            read(shape, block_shape, index, itemsize),
            expected_region(shape, index, itemsize),
            "shape={shape:?} block_shape={block_shape:?} index={index:?}"
        );
    }
}

#[test]
fn copying_a_part_leaves_the_rest_of_the_output_alone() {
    let index = [1..6, 1..4];
    let out_strides = [3usize, 1];
    let plan = plan_compact_read(&[6, 4], &[3, 2], &index, 1, &out_strides).unwrap();
    let blocks = raw_blocks(&[6, 4], &[3, 2], 1);
    let CompactRead::Parts(copies) = plan else { panic!("several blocks are touched") };
    let bstr = block_strides(&[3, 2], 1);
    let mut out = vec![0xAAu8; 15];
    copy_block_part(&copies[0], &bstr, &blocks[0], &mut out, &out_strides, 1);
    // Block 0's part is the 2 x 1 corner at (0, 0) and (1, 0) of the region.
    for (pos, &byte) in out.iter().enumerate() {
        if pos == 0 || pos == 3 {
            assert_ne!(byte, 0xAA);
        } else {
            assert_eq!(byte, 0xAA);
        }
    }
    let expected = expected_region(&[6, 4], &index, 1);
    assert_eq!(out[0], expected[0]);
    assert_eq!(out[3], expected[3]);
}

#[test]
fn block_strides_are_row_major_bytes() {
    assert_eq!(block_strides(&[3, 2], 4), vec![8, 4]);
    assert_eq!(block_strides(&[2, 3, 4], 1), vec![12, 4, 1]);
    assert_eq!(block_strides(&[], 2), Vec::<usize>::new());
}

#[test]
fn run_compact_read_copies_each_part_into_place() {
    let shape = [4u64];
    let block_shape = [2u32];
    let index = [1u64..3];
    let plan = plan_compact_read(&shape, &block_shape, &index, 1, &[1]).unwrap();
    let decoded = vec![vec![10u8, 11], vec![12u8, 13]];
    let mut out = [0u8; 2];
    run_compact_read(&plan, &decoded, &shape, &block_shape, &index, 1, &mut out, &[1]).unwrap();
    assert_eq!(out, [11, 12]);
}

#[test]
fn run_compact_read_fills_a_whole_block() {
    let shape = [4u64, 2];
    let block_shape = [2u32, 2];
    let index = [2u64..4, 0..2];
    let plan = plan_compact_read(&shape, &block_shape, &index, 2, &[4, 2]).unwrap();
    assert!(matches!(plan, CompactRead::Whole(1)));
    let decoded = vec![vec![1u8, 2, 3, 4, 5, 6, 7, 8]];
    let mut out = [0u8; 8];
    run_compact_read(&plan, &decoded, &shape, &block_shape, &index, 2, &mut out, &[4, 2]).unwrap();
    assert_eq!(out, [1, 2, 3, 4, 5, 6, 7, 8]);
    let mut small = [0u8; 4];
    let err = run_compact_read(&plan, &decoded, &shape, &block_shape, &index, 2, &mut small, &[4, 2]);
    assert_eq!(err.unwrap_err().kind, ErrorKind::InvalidBufferSize);
    assert_eq!(small, [0; 4]);
}

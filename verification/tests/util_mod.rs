use jix::util::{calc_block_end, default_strides_slice, scale_read_shape, strided_span_bytes};

#[test]
fn calc_block_end_non_empty_ranges() {
    // Non-empty ranges behave like div_ceil of the end.
    assert_eq!(calc_block_end(0, 4, 4), 1); // exactly one block
    assert_eq!(calc_block_end(0, 3, 4), 1); // partial block
    assert_eq!(calc_block_end(1, 5, 4), 2); // spans two blocks
    assert_eq!(calc_block_end(0, 8, 4), 2); // two full blocks
}

#[test]
fn calc_block_end_empty_aligned_ranges() {
    // An empty range starting on a block boundary touches zero blocks.
    assert_eq!(calc_block_end(0, 0, 4), 0);
    assert_eq!(calc_block_end(4, 4, 4), 1);
    assert_eq!(calc_block_end(8, 8, 4), 2);
}

#[test]
fn calc_block_end_empty_unaligned_ranges() {
    // An empty range whose start is not block-aligned still touches zero blocks.
    for block_size in 1..=8u64 {
        for begin in 0..=16u64 {
            assert_eq!(
                calc_block_end(begin, begin, block_size),
                begin / block_size,
                "empty range [{begin}, {begin}) with block_size {block_size}",
            );
        }
    }
}

#[test]
fn test_default_strides() {
    let s = |shape: &[usize], itemsize: usize| default_strides_slice(shape, itemsize);
    assert_eq!(s(&[], 4), &[] as &[usize]);
    assert_eq!(s(&[5], 2), &[2]);
    assert_eq!(s(&[3, 4], 4), &[16, 4]);
    assert_eq!(s(&[2, 3, 4], 1), &[12, 4, 1]);
    assert_eq!(s(&[2, 3, 4], 8), &[96, 32, 8]);
}

#[test]
fn strided_span_bytes_covers_the_last_element() {
    // 3 x 4 i32, row-major: the last element starts at 44 and ends at 48.
    assert_eq!(strided_span_bytes(&[3, 4], &[16, 4], 4), 48);
    // A broadcast (zero-stride) axis adds nothing.
    assert_eq!(strided_span_bytes(&[5, 4], &[0, 4], 4), 16);
    // An empty region spans nothing.
    assert_eq!(strided_span_bytes(&[3, 0], &[16, 4], 4), 0);
    // A scalar spans one element.
    assert_eq!(strided_span_bytes(&[], &[], 8), 8);
}

#[test]
fn scale_read_shape_uses_max_to_cap_and_min_to_grow() {
    // 1-D: total range 1000 elems. Window items: min=16, max=256.
    let total = [1000u64];
    let mut read_shape = vec![8u64];
    scale_read_shape(&mut read_shape, &total, &total, (16, 256), &[0]);
    let v = read_shape[0];
    assert!(v >= 16, "expected scale-up to reach the min floor, got {v}");
    assert!(v <= 256, "expected scale-down to respect the max ceiling, got {v}");

    // A large seed (full range) is capped by the `max` ceiling, not collapsed to `min`.
    let mut read_shape = vec![1000u64];
    scale_read_shape(&mut read_shape, &total, &total, (16, 256), &[0]);
    let v = read_shape[0];
    assert!(v <= 256, "expected scale-down to cap at max, got {v}");
    assert!(v >= 128, "expected the cap to stay near max, not collapse to min, got {v}");
}

#[test]
fn scale_read_shape_prioritizes_high_order_dim() {
    // 2-D [100, 100], budget max=200 items, seeded with the whole range; priority [dim1, dim0].
    let shape = [100u64, 100];
    let mut read_shape = vec![100u64, 100];
    scale_read_shape(&mut read_shape, &shape, &shape, (1, 200), &[1, 0]);
    // Balanced: both dims capped to a common bound (near-square), volume within ~max.
    assert_eq!(
        read_shape[0], read_shape[1],
        "balanced strategy yields a near-square tile, got {read_shape:?}"
    );
    assert!(
        read_shape[0] * read_shape[1] <= 2 * 200,
        "volume stays within ~max budget, got {read_shape:?}"
    );
}

#[test]
fn scale_read_shape_scales_only_ordered_dims() {
    // Only dim 1 is listed, so dim 0 is left exactly as seeded and only dim 1 grows.
    let shape = [100u64, 100];
    let mut read_shape = vec![7u64, 7];
    scale_read_shape(&mut read_shape, &shape, &shape, (200, 200), &[1]);
    assert_eq!(read_shape[0], 7, "unlisted dim is left exactly as seeded");
    // dim 1 grows in seed-multiples toward the budget: 7 * floor(200 / 7^2) = 7 * 4 = 28.
    assert_eq!(read_shape[1], 28, "listed dim scales toward the budget");
}

#[test]
fn scale_read_shape_snaps_full_range_to_the_array_extent() {
    // The requested range (10) fits entirely, so the read snaps to the array's extent (64).
    let mut read_shape = vec![4u64];
    scale_read_shape(&mut read_shape, &[10], &[64], (1000, 1000), &[0]);
    assert_eq!(read_shape, vec![64]);
}

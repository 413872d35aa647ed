use jix::error::ErrorKind;
use jix::storage::params::{
    combine_block_layout, read_layout_order_insert_dont_care_dim, ArrayParams, ArraySpecFlags,
    BlockSize, CacheSizes, ReadSize,
};
use jix::util::arrayvec::ArrayVec;
use jix::util::bitmap::DimBitmap;

fn bits(bm: DimBitmap) -> Vec<bool> {
    bm.to_vec()
}

fn cache() -> CacheSizes {
    CacheSizes { l1_data: 32 * 1024, l2: 1024 * 1024 }
}

#[test]
fn combine_block_layout_takes_max_and_fixes_on_agreement() {
    let a_fixed = DimBitmap::from_bools(&[true, false, false]);
    let b_fixed = DimBitmap::from_bools(&[false, true, false]);
    // dim 0: equal len (4) and `a` fixed -> fixed. dim 1: differing len (2 vs 8) -> not fixed
    // even though `b` is fixed. dim 2: equal len (5) but neither fixed -> not fixed.
    let (bs, fx) =
        combine_block_layout(&[(&[4u32, 2, 5][..], a_fixed), (&[4u32, 8, 5][..], b_fixed)]);
    assert_eq!(bs.as_slice(), &[4, 8, 5]);
    assert_eq!(bits(fx), [true, false, false]);
}

#[test]
fn combine_block_layout_of_one_input_is_that_input() {
    let fixed = DimBitmap::from_bools(&[true, false]);
    let (bs, fx) = combine_block_layout(&[(&[3u32, 7][..], fixed)]);
    assert_eq!(bs, vec![3, 7]);
    assert_eq!(bits(fx), [true, false]);
}

#[test]
fn dim_bitmap_filled_and_len() {
    let all = DimBitmap::filled(3, true);
    assert_eq!(all.len(), 3);
    assert_eq!(bits(all), [true, true, true]);

    let none = DimBitmap::filled(3, false);
    assert_eq!(none.len(), 3);
    assert_eq!(bits(none), [false, false, false]);

    assert_eq!(DimBitmap::filled(0, true).len(), 0);
    assert_eq!(DimBitmap::filled(8, true).len(), 8);
}

#[test]
fn dim_bitmap_get_set() {
    let mut bm = DimBitmap::filled(3, false);
    assert!(!bm.get(0));
    bm.set(2, true);
    assert!(bm.get(2));
    assert!(!bm.get(1));
    bm.set(2, false);
    assert!(!bm.get(2));

    assert!(DimBitmap::filled(8, true).get(0));
    assert!(DimBitmap::filled(8, true).get(7));
}

#[test]
fn dim_bitmap_all() {
    assert!(DimBitmap::filled(8, true).all());
    assert!(DimBitmap::filled(0, true).all());
    assert!(!DimBitmap::filled(1, false).all());

    let mut bm = DimBitmap::filled(2, false);
    bm.set(0, true);
    assert!(!bm.all());
    bm.set(1, true);
    assert!(bm.all());
}

#[test]
fn dim_bitmap_insert() {
    // [fixed, free, fixed], insert a non-fixed dim at pos 1 -> [fixed, free(new), free, fixed]
    let mut bm = DimBitmap::filled(3, false);
    bm.set(0, true);
    bm.set(2, true);
    bm.insert(1, false);
    assert_eq!(bm.len(), 4);
    assert_eq!(bits(bm), [true, false, false, true]);

    // insert at the front shifts everything up.
    let mut bm = DimBitmap::filled(1, false);
    bm.set(0, true);
    bm.insert(0, false);
    assert_eq!(bits(bm), [false, true]);
}

#[test]
fn dim_bitmap_from_into_iter_roundtrips() {
    let src = [true, false, true, false];
    let bm = DimBitmap::from_bools(&src);
    assert_eq!(bm.len(), 4);
    assert_eq!(bits(bm), src);

    // Select dims 0 and 2.
    let selected: Vec<bool> = bm
        .to_vec()
        .into_iter()
        .enumerate()
        .filter_map(|(dim, c)| (dim == 0 || dim == 2).then_some(c))
        .collect();
    let selected = DimBitmap::from_bools(&selected);
    assert_eq!(bits(selected), [true, true]);
}

#[test]
fn read_size_normalizes_and_converts() {
    // min floored at 1, max raised to at least min.
    assert_eq!(ReadSize::new(0, 0), ReadSize::new(1, 1));
    let rs = ReadSize::new(10, 4);
    assert_eq!((rs.min, rs.max), (10, 10));

    let rs = ReadSize::new(32 * 1024, 256 * 1024);
    assert_eq!((rs.min, rs.max), (32 * 1024, 256 * 1024));

    // nitems divides by itemsize, flooring each at 1.
    let (min_n, max_n) = ReadSize::new(32, 256).nitems(4u16);
    assert_eq!((min_n, max_n), (8, 64));
    let (min_n, max_n) = ReadSize::new(2, 256).nitems(4u16);
    assert_eq!((min_n, max_n), (1, 64));
}

#[test]
fn array_spec_flags_set_and_clear() {
    let f = ArraySpecFlags::new();
    assert!(!f.is_compact());
    assert!(!f.plain_read());
    let f = f.set_compact();
    assert!(f.is_compact());
    assert!(!f.plain_read());
    let f = f.set_plain_read();
    assert!(f.is_compact() && f.plain_read());
    let f = f.clear_compact();
    assert!(!f.is_compact() && f.plain_read());
    let f = f.clear_plain_read();
    assert!(!f.is_compact() && !f.plain_read());
}

#[test]
fn block_shape_fixed_dims_controls_scaling() {
    let itemsize = 4u64;

    // All dims fixed by default: the explicit block shape is preserved exactly.
    let mut params = ArrayParams::new();
    params.block_shape(&[4, 4]);
    params.tune(&[1024, 1024], itemsize, cache()).unwrap();
    assert_eq!(params.block_shape.as_deref(), Some(&[4u32, 4][..]));
    assert!(params.block_shape_fixed_dims.unwrap().all());

    // Release dim 1: it may grow to fill the block-size budget, while dim 0 stays pinned.
    let mut params = ArrayParams::new();
    params.block_shape(&[4, 4]);
    params.block_shape_fixed_dims(&[true, false]);
    params.block_size(4 * 1024 * itemsize);
    params.tune(&[1024, 1024], itemsize, cache()).unwrap();
    let bs = params.block_shape.clone().unwrap();
    assert_eq!(bs[0], 4, "fixed dim 0 must be preserved");
    assert!(bs[1] > 4, "non-fixed dim 1 should scale up: {bs:?}");
    assert!(params.block_shape_fixed_dims.unwrap().get(0));
    assert!(!params.block_shape_fixed_dims.unwrap().get(1));
}

#[test]
fn block_shape_fixed_dims_without_block_shape_errors() {
    let mut params = ArrayParams::new();
    params.block_shape_fixed_dims(&[false]);
    match params.tune(&[8], 4, cache()) {
        Err(e) => assert!(matches!(e.kind(), ErrorKind::InvalidArgument)),
        Ok(_) => panic!("expected InvalidArgument error"),
    }
}

#[test]
fn block_shape_fixed_dims_length_mismatch_errors() {
    // A 3-element fixed-dims mask on a 2-D array is a length mismatch.
    let mut params = ArrayParams::new();
    params.block_shape(&[4, 4]);
    params.block_shape_fixed_dims(&[true, false, true]);
    match params.tune(&[1024, 1024], 4, cache()) {
        Err(e) => assert!(matches!(e.kind(), ErrorKind::InvalidArgument)),
        Ok(_) => panic!("expected InvalidArgument error"),
    }
}

#[test]
fn read_size_defaults_to_cache_window() {
    let mut params = ArrayParams::new();
    params.block_shape(&[8]);
    let cs = cache();
    params.tune(&[8], 4, cs).unwrap();
    let rs = params.read_size.unwrap();
    let block_size = 8 * 4u64;
    assert!(rs.min >= block_size, "min {} < block_size {block_size}", rs.min);
    assert!(rs.min <= rs.max, "min {} > max {}", rs.min, rs.max);
    assert!(rs.max <= cs.l2, "max {} > l2 {}", rs.max, cs.l2);
    // Exactly: max(l1 / 2, l2 / 16, block size) to l2 / 2.
    assert_eq!((rs.min, rs.max), (64 * 1024, 512 * 1024));
    assert_eq!(params.block_size, Some(32));
}

#[test]
fn read_size_setter_roundtrips_tuple() {
    let mut params = ArrayParams::new();
    params.block_shape(&[8]);
    params.read_size((4096, 65536));
    params.tune(&[8], 4, cache()).unwrap();
    let rs = params.read_size.unwrap();
    assert_eq!((rs.min, rs.max), (4096, 65536));
}

#[test]
fn tune_rejects_zero_itemsize() {
    let mut params = ArrayParams::new();
    let err = params.tune(&[8], 0, cache()).unwrap_err();
    assert_eq!(err.kind(), ErrorKind::UnsupportedDtype);
}

#[test]
fn tune_rejects_too_many_dims() {
    let mut params = ArrayParams::new();
    let err = params.tune(&[2; 9], 4, cache()).unwrap_err();
    assert_eq!(err.kind(), ErrorKind::InvalidArgument);
    assert!(params.block_shape.is_none());
}

#[test]
fn tune_rejects_a_block_shape_beyond_the_array() {
    let mut params = ArrayParams::new();
    params.block_shape(&[16]);
    let err = params.tune(&[8], 4, cache()).unwrap_err();
    assert_eq!(err.kind(), ErrorKind::InvalidArgument);
    let mut params = ArrayParams::new();
    params.block_shape(&[0, 4]);
    params.block_shape_fixed_dims(&[true, false]);
    let err = params.tune(&[1, 1], 4, cache()).unwrap_err();
    assert_eq!(err.kind(), ErrorKind::InvalidArgument);
}

#[test]
fn tune_without_block_shape_fills_the_l1_budget() {
    // No block shape: the shape is scaled to l1 / itemsize = 8192 items.
    let mut params = ArrayParams::new();
    params.tune(&[1000, 1000], 4, cache()).unwrap();
    let bs = params.block_shape.clone().unwrap();
    let vol: u64 = bs.iter().map(|&b| b as u64).product();
    assert!(vol <= 8192, "{bs:?}");
    assert_eq!(params.block_size, Some(32 * 1024));
    assert_eq!(bits(params.block_shape_fixed_dims.unwrap()), [false, false]);
}

fn sbs(
    block_shape: &[BlockSize],
    scale_dim: &[bool],
    block_size_max: u64,
    shape: &[u64],
) -> Vec<BlockSize> {
    ArrayParams::scale_block_shape(block_shape, scale_dim, block_size_max, shape)
}

fn vol(block: &[BlockSize]) -> u64 {
    block.iter().map(|&b| b as u64).product()
}

#[test]
fn scale_block_shape_output_len_matches_ndim() {
    assert_eq!(sbs(&[1, 1, 1], &[true, true, true], 1000, &[100, 100, 100]).len(), 3);
    assert_eq!(sbs(&[4], &[false], 1000, &[100]).len(), 1);
}

#[test]
fn scale_block_shape_preserves_fixed_dims() {
    let out = sbs(&[7, 1, 3], &[false, true, false], 10_000, &[100, 100, 100]);
    assert_eq!(out[0], 7);
    assert_eq!(out[2], 3);
}

#[test]
fn scale_block_shape_clamps_within_shape() {
    for (bs, sd, budget, shape) in [
        (vec![1, 1], vec![true, true], 64u64, vec![50u64, 50]),
        (vec![1, 1, 1], vec![true, true, true], 1000, vec![7, 200, 3]),
        (vec![1], vec![true], 10, vec![1000]),
        (vec![1], vec![true], 1_000_000, vec![5]),
    ] {
        let out = sbs(&bs, &sd, budget, &shape);
        for (d, &b) in out.iter().enumerate() {
            assert!(b >= 1, "dim {d}: block len {b} < 1 for shape {shape:?}");
            assert!(
                b as u64 <= shape[d].max(1),
                "dim {d}: block len {b} exceeds shape {}",
                shape[d]
            );
        }
    }
}

#[test]
fn scale_block_shape_singleton_scaled_dim_is_one() {
    let out = sbs(&[1, 1], &[true, true], 1000, &[1, 500]);
    assert_eq!(out[0], 1);
    assert_eq!(sbs(&[1, 1], &[true, true], 1000, &[1, 1]), vec![1, 1]);
}

#[test]
fn scale_block_shape_fully_auto_stays_near_budget() {
    for (budget, shape) in [
        (64u64, vec![1_000_000u64]),
        (100, vec![1000]),
        (1000, vec![1000, 1000]),
        (256, vec![10_000, 10_000]),
        (4096, vec![64, 64, 64]),
    ] {
        let ndim = shape.len();
        let out = sbs(&vec![1; ndim], &vec![true; ndim], budget, &shape);
        assert!(
            vol(&out) <= budget * 8,
            "fully-auto volume {} >> budget {budget} for shape {shape:?}: {out:?}",
            vol(&out)
        );
    }
}

#[test]
fn scale_block_shape_reserves_budget_for_outer_fixed_dim() {
    let out = sbs(&[50, 1], &[false, true], 100, &[1000, 1000]);
    assert_eq!(out[0], 50, "fixed dim must be preserved");
    assert!(
        vol(&out) <= 100 * 4,
        "outer fixed dim not reserved out of budget: volume {} for {out:?}",
        vol(&out)
    );
}

#[test]
fn scale_block_shape_inner_fixed_dim_stays_near_budget() {
    let out = sbs(&[1, 50], &[true, false], 100, &[1000, 1000]);
    assert_eq!(out[1], 50);
    assert!(vol(&out) <= 100 * 4, "volume {} for {out:?}", vol(&out));
}

#[test]
fn scale_block_shape_scaled_dim_yields_to_fixed_dims() {
    let out = sbs(&[40, 40, 1], &[false, false, true], 100, &[100, 100, 100]);
    assert_eq!(out[0], 40);
    assert_eq!(out[1], 40);
    assert_eq!(out[2], 1, "scaled dim should collapse to 1 under budget pressure: {out:?}");
}

#[test]
fn block_len_heuristic_returns_one_for_degenerate_dim() {
    assert_eq!(ArrayParams::block_len_heuristic(5, 1, 1000, 1), 1);
    assert_eq!(ArrayParams::block_len_heuristic(1, 0, 1000, 1), 1);
}

#[test]
fn block_len_heuristic_never_exceeds_dim_len_or_budget() {
    for (base, dim_len, max_volume, inner) in [
        (1u32, 1_000_000u64, 64u64, 1u64),
        (1, 1000, 100, 1),
        (1, 1000, 100, 50),
        (8, 500, 4096, 2),
        (1, 10, 1_000_000, 1),
    ] {
        let b = ArrayParams::block_len_heuristic(base, dim_len, max_volume, inner) as u64;
        assert!(b >= 1 && b <= dim_len, "block len {b} out of [1,{dim_len}]");
        let budget = (max_volume / inner).max(1);
        assert!(
            b <= budget * 4,
            "block len {b} >> per-dim budget {budget} (base={base}, dim_len={dim_len})"
        );
    }
}

#[test]
fn block_len_heuristic_budget_shrinks_with_inner_volume() {
    let big = ArrayParams::block_len_heuristic(1, 10_000, 4096, 1);
    let small = ArrayParams::block_len_heuristic(1, 10_000, 4096, 64);
    assert!(small <= big, "expected {small} <= {big} as inner volume grows");
}

#[test]
fn block_len_heuristic_exact_values() {
    // The whole dimension fits the budget.
    assert_eq!(ArrayParams::block_len_heuristic(1, 10, 1_000_000, 1), 10);
    // 1000 items, budget 100: granularity 1 * next_pow2(100 / 16 + 1) = 8; 96 pads 1000 to 1056
    // (56 <= 125 items of padding).
    assert_eq!(ArrayParams::block_len_heuristic(1, 1000, 100, 1), 96);
}

#[test]
fn read_layout_order_inserts_before_the_first_larger_dim() {
    let mut order: ArrayVec<u8, 8> = ArrayVec::new();
    order.push(0);
    order.push(3);
    order.push(1);
    read_layout_order_insert_dont_care_dim(&mut order, 2);
    assert_eq!(order.as_slice(), &[0, 2, 3, 1]);
    read_layout_order_insert_dont_care_dim(&mut order, 7);
    assert_eq!(order.as_slice(), &[0, 2, 3, 1, 7]);
}

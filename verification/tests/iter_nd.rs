use jix::util::iter::nd::{IdxIter, NdIter, NdIterExtension};
use jix::util::iter::strides::NdIterExtStridesOffset;

fn collect_idx(mut iter: IdxIter) -> Vec<Vec<u64>> {
    let mut out = Vec::new();
    while let Some(idx) = iter.next() {
        out.push(idx);
    }
    out
}

fn collect_indices<E: NdIterExtension>(mut iter: NdIter<E>) -> Vec<Vec<u64>> {
    let mut out = Vec::new();
    while let Some((idx, _)) = iter.next() {
        out.push(idx);
    }
    out
}

/// Records every `on_increase/decrease` notification it receives.
struct ChangeLog {
    log: Vec<(usize, u64)>,
}
impl ChangeLog {
    fn new() -> Self {
        Self { log: Vec::new() }
    }
}
impl NdIterExtension for ChangeLog {
    type Item = usize;
    fn on_increase(&mut self, dim: usize, after: u64, _diff: u64) {
        self.log.push((dim, after));
    }
    fn on_decrease(&mut self, dim: usize, after: u64, _diff: u64) {
        self.log.push((dim, after));
    }
    fn value(&self) -> usize {
        self.log.len()
    }
    fn check_ndim(&self, _ndim: usize) -> bool {
        true
    }
}

#[test]
fn idx_iter_0d_yields_one_empty_index() {
    assert_eq!(collect_idx(IdxIter::new(vec![])), vec![Vec::<u64>::new()]);
}

#[test]
fn idx_iter_1d() {
    assert_eq!(
        collect_idx(IdxIter::new(vec![4u64])),
        vec![vec![0], vec![1], vec![2], vec![3]],
    );
}

#[test]
fn idx_iter_1d_size_1() {
    assert_eq!(collect_idx(IdxIter::new(vec![1u64])), vec![vec![0]]);
}

#[test]
fn idx_iter_1d_size_0() {
    assert!(collect_idx(IdxIter::new(vec![0u64])).is_empty());
}

#[test]
fn idx_iter_2d_row_major_order() {
    assert_eq!(
        collect_idx(IdxIter::new(vec![2u64, 3])),
        vec![
            vec![0, 0],
            vec![0, 1],
            vec![0, 2],
            vec![1, 0],
            vec![1, 1],
            vec![1, 2],
        ],
    );
}

#[test]
fn idx_iter_3d_row_major_order() {
    let got = collect_idx(IdxIter::new(vec![2u64, 3, 2]));
    let expected: Vec<Vec<u64>> = (0..2)
        .flat_map(|i| (0..3).flat_map(move |j| (0..2).map(move |k| vec![i, j, k])))
        .collect();
    assert_eq!(got, expected);
}

#[test]
fn idx_iter_total_count_equals_shape_product() {
    let shape: [u64; 4] = [2, 3, 4, 5];
    assert_eq!(collect_idx(IdxIter::new(shape.to_vec())).len(), 2 * 3 * 4 * 5);
}

#[test]
fn idx_iter_zero_in_first_dim_is_empty() {
    assert!(collect_idx(IdxIter::new(vec![0u64, 3])).is_empty());
}

#[test]
fn idx_iter_zero_in_last_dim_is_empty() {
    assert!(collect_idx(IdxIter::new(vec![3u64, 0])).is_empty());
}

#[test]
fn idx_iter_zero_in_middle_dim_is_empty() {
    assert!(collect_idx(IdxIter::new(vec![3u64, 0, 4])).is_empty());
}

#[test]
fn idx_iter_zero_1d_is_empty() {
    assert!(collect_idx(IdxIter::new(vec![0u64])).is_empty());
}

#[test]
fn idx_iter_returns_none_repeatedly_after_exhaustion() {
    let mut iter = IdxIter::new(vec![2u64]);
    iter.next();
    iter.next();
    assert!(iter.next().is_none());
    assert!(iter.next().is_none());
    assert!(iter.next().is_none());
}

fn assert_size_hint_exact(mut iter: NdIter<()>, total: usize) {
    for left in (0..=total).rev() {
        assert_eq!(iter.size_hint(), (left, Some(left)), "{left} item(s) left");
        assert_eq!(iter.next().is_some(), left > 0, "{left} item(s) left");
    }
    assert_eq!(iter.size_hint(), (0, Some(0)), "past the end");
}

#[test]
fn size_hint_is_exact_at_every_step() {
    assert_size_hint_exact(NdIter::new(vec![], ()), 1);
    assert_size_hint_exact(NdIter::new(vec![5u64], ()), 5);
    assert_size_hint_exact(NdIter::new(vec![3u64, 4], ()), 12);
    assert_size_hint_exact(NdIter::new(vec![2u64, 3, 4], ()), 24);
    assert_size_hint_exact(NdIter::new(vec![2u64, 3, 2], ()), 12);
}

#[test]
fn size_hint_counts_the_range_not_the_index() {
    assert_size_hint_exact(NdIter::new_with_begin(vec![1u64, 2], vec![4u64, 5], ()), 9);
}

#[test]
fn size_hint_is_zero_for_an_empty_range() {
    assert_size_hint_exact(NdIter::new(vec![4u64, 0], ()), 0);
    assert_size_hint_exact(NdIter::new(vec![3u64, 0, 4], ()), 0);
    assert_size_hint_exact(NdIter::new_with_begin(vec![2u64, 2], vec![2u64, 5], ()), 0);
}

#[test]
fn new_with_begin_1d_offset() {
    assert_eq!(
        collect_indices(NdIter::new_with_begin(vec![2u64], vec![5u64], ())),
        vec![vec![2], vec![3], vec![4]],
    );
}

#[test]
fn new_with_begin_2d_offset() {
    let got = collect_indices(NdIter::new_with_begin(vec![1u64, 2], vec![3u64, 4], ()));
    let expected: Vec<Vec<u64>> = (1..3).flat_map(|r| (2..4).map(move |c| vec![r, c])).collect();
    assert_eq!(got, expected);
}

#[test]
fn new_with_begin_count_matches_range_product() {
    let got = collect_indices(NdIter::new_with_begin(vec![1u64, 2, 0], vec![4u64, 5, 3], ()));
    assert_eq!(got.len(), (4 - 1) * (5 - 2) * 3);
}

#[test]
fn new_with_begin_empty_when_one_dim_degenerate() {
    assert!(collect_indices(NdIter::new_with_begin(vec![2u64, 0], vec![2u64, 5], ())).is_empty());
}

#[test]
fn new_with_begin_empty_when_all_dims_degenerate() {
    assert!(collect_indices(NdIter::new_with_begin(vec![3u64], vec![3u64], ())).is_empty());
}

#[test]
fn new_with_begin_begin_equals_zero_matches_new() {
    let via_new = collect_indices(NdIter::new(vec![3u64, 4], ()));
    let via_begin = collect_indices(NdIter::new_with_begin(vec![0u64, 0], vec![3u64, 4], ()));
    assert_eq!(via_new, via_begin);
}

#[test]
fn new_with_begin_1d_offset_dyn() {
    assert_eq!(
        collect_indices(NdIter::new_with_begin(vec![2u64], vec![5u64], ())),
        vec![vec![2], vec![3], vec![4]],
    );
}

#[test]
fn new_with_begin_2d_offset_dyn() {
    let got = collect_indices(NdIter::new_with_begin(vec![1u64, 2], vec![3u64, 4], ()));
    let expected: Vec<Vec<u64>> = (1..3).flat_map(|r| (2..4).map(move |c| vec![r, c])).collect();
    assert_eq!(got, expected);
}

#[test]
fn on_change_not_called_on_first_step() {
    let mut iter = NdIter::new(vec![3u64, 4], ChangeLog::new());
    let (_, n_changes) = iter.next().unwrap();
    assert_eq!(n_changes, 0, "no changes on the very first step");
}

#[test]
fn on_change_called_once_for_innermost_advance() {
    let mut iter = NdIter::new(vec![3u64, 4], ChangeLog::new());
    iter.next(); // emit [0,0], then carry to [0,1]
    assert_eq!(iter.extensions().log, vec![(1usize, 1)]);
}

#[test]
fn on_change_called_twice_on_row_wrap() {
    let mut iter = NdIter::new(vec![3u64, 4], ChangeLog::new());
    for _ in 0..3 {
        iter.next();
    }
    let before = iter.extensions().log.len();
    iter.next(); // emit [0,3], then carry to [1,0]
    let new: Vec<_> = iter.extensions().log[before..].to_vec();
    assert_eq!(new, vec![(1, 0), (0, 1)]);
}

#[test]
fn on_change_all_smaller_dims_reset_in_order() {
    let mut iter = NdIter::new(vec![2u64, 3, 4], ChangeLog::new());
    for _ in 0..(3 * 4 - 1) {
        iter.next();
    }
    let before = iter.extensions().log.len();
    iter.next(); // emit [0,2,3], then carry to [1,0,0]
    let new: Vec<_> = iter.extensions().log[before..].to_vec();
    assert_eq!(new, vec![(2, 0), (1, 0), (0, 1)]);
}

#[test]
fn on_change_reset_targets_begin_not_zero() {
    let mut iter = NdIter::new_with_begin(vec![1u64, 2], vec![3u64, 5], ChangeLog::new());
    for _ in 0..2 {
        iter.next();
    }
    let before = iter.extensions().log.len();
    iter.next(); // emit [1,4], then carry to [2,2]
    let new: Vec<_> = iter.extensions().log[before..].to_vec();
    assert_eq!(new[0], (1, 2), "dim 1 resets to begin=2, not 0");
    assert_eq!(new[1], (0, 2), "dim 0: 1->2");
}

#[test]
fn on_change_total_call_count_for_full_2d_traversal() {
    let (r, c): (u64, u64) = (4, 5);
    let mut iter = NdIter::new(vec![r, c], ChangeLog::new());
    while iter.next().is_some() {}
    let expected = (r * (c - 1) + (r - 1) * 2 + 2) as usize;
    assert_eq!(iter.extensions().log.len(), expected);
}

#[test]
fn tuple_1_extension_delegates() {
    let ext = ChangeLog::new();
    let mut iter = NdIter::new(vec![3u64, 3], (ext,));
    while iter.next().is_some() {}
    assert!(!iter.extensions().0.log.is_empty());
}

#[test]
fn tuple_2_two_offset_extensions_track_independently() {
    let ext = (
        NdIterExtStridesOffset::new(vec![3usize, 1], 0),
        NdIterExtStridesOffset::new(vec![6usize, 2], 0),
    );
    let mut iter = NdIter::new(vec![2u64, 3], ext);
    let mut flat = 0usize;
    while let Some((_, (oa, ob))) = iter.next() {
        assert_eq!(oa, flat, "a step {flat}");
        assert_eq!(ob, flat * 2, "b step {flat}");
        flat += 1;
    }
    assert_eq!(flat, 6);
}

#[test]
fn tuple_2_offset_and_change_log() {
    let ext = (NdIterExtStridesOffset::new(vec![1usize], 0), ChangeLog::new());
    let mut iter = NdIter::new(vec![4u64], ext);
    let mut offsets: Vec<usize> = Vec::new();
    while let Some((_, (offset, _))) = iter.next() {
        offsets.push(offset);
    }
    assert_eq!(iter.extensions().1.log.len(), 4);
    for (i, &offset) in offsets.iter().enumerate() {
        assert_eq!(offset, i, "offset {i}");
    }
}

#[test]
fn tuple_3_all_three_extensions_receive_changes() {
    let ext = (
        NdIterExtStridesOffset::new(vec![1usize], 0),
        NdIterExtStridesOffset::new(vec![1usize], 0),
        NdIterExtStridesOffset::new(vec![1usize], 0),
    );
    let mut iter = NdIter::new(vec![4u64], ext);
    let mut count = 0usize;
    while let Some((_, (off_a, off_b, off_c))) = iter.next() {
        assert_eq!(off_a, count, "step {count}: a");
        assert_eq!(off_a, off_b, "step {count}: a vs b");
        assert_eq!(off_a, off_c, "step {count}: a vs c");
        count += 1;
    }
    assert_eq!(count, 4);
}

#[test]
fn unit_extension_yields_unit_items() {
    let mut iter = NdIter::new(vec![2u64, 2], ());
    while let Some((_, item)) = iter.next() {
        let _: () = item;
    }
}

#[test]
fn builder_no_ext_matches_new() {
    let via_builder = collect_indices(NdIter::builder(vec![2u64, 3]).build());
    let via_new = collect_indices(NdIter::new(vec![2u64, 3], ()));
    assert_eq!(via_builder, via_new);
}

#[test]
fn builder_with_begin_no_ext_matches_new_with_begin() {
    let via_builder = collect_indices(NdIter::builder_with_begin(vec![1u64, 2], vec![3u64, 4]).build());
    let via_new = collect_indices(NdIter::new_with_begin(vec![1u64, 2], vec![3u64, 4], ()));
    assert_eq!(via_builder, via_new);
}

#[test]
fn builder_single_ext_yields_bare_item() {
    let mut iter = NdIter::builder(vec![2u64, 3])
        .with_strides_offset_ext(vec![3usize, 1], 0)
        .build();
    let mut flat = 0usize;
    while let Some((_, offset)) = iter.next() {
        let _: usize = offset;
        assert_eq!(offset, flat, "step {flat}");
        flat += 1;
    }
    assert_eq!(flat, 6);
}

#[test]
fn builder_two_exts_yield_flat_pair_in_call_order() {
    let mut iter = NdIter::builder(vec![2u64, 3])
        .with_strides_offset_ext(vec![3usize, 1], 0usize)
        .with_strides_offset_ext(vec![6u64, 2], 0u64)
        .build();
    let mut flat = 0usize;
    while let Some((_, (src, dst))) = iter.next() {
        let _: usize = src;
        let _: u64 = dst;
        assert_eq!(src, flat, "src step {flat}");
        assert_eq!(dst, flat as u64 * 2, "dst step {flat}");
        flat += 1;
    }
    assert_eq!(flat, 6);
}

#[test]
fn builder_two_exts_match_manual_tuple() {
    let mut built_iter = NdIter::builder(vec![2u64, 3])
        .with_strides_offset_ext(vec![3usize, 1], 0)
        .with_strides_offset_ext(vec![6usize, 2], 0)
        .build();
    let mut built: Vec<(usize, usize)> = Vec::new();
    while let Some((_, pair)) = built_iter.next() {
        built.push(pair);
    }
    let mut manual_iter = NdIter::new(
        vec![2u64, 3],
        (
            NdIterExtStridesOffset::new(vec![3usize, 1], 0),
            NdIterExtStridesOffset::new(vec![6usize, 2], 0),
        ),
    );
    let mut manual: Vec<(usize, usize)> = Vec::new();
    while let Some((_, pair)) = manual_iter.next() {
        manual.push(pair);
    }
    assert_eq!(built, manual);
}

#[test]
fn builder_three_exts_yield_flat_triple() {
    let mut iter = NdIter::builder(vec![4u64])
        .with_strides_offset_ext(vec![1usize], 0)
        .with_strides_offset_ext(vec![1usize], 0)
        .with_strides_offset_ext(vec![1usize], 0)
        .build();
    let mut count = 0usize;
    while let Some((_, (off_a, off_b, off_c))) = iter.next() {
        assert_eq!(off_a, count, "step {count}: a");
        assert_eq!(off_a, off_b, "step {count}: a vs b");
        assert_eq!(off_a, off_c, "step {count}: a vs c");
        count += 1;
    }
    assert_eq!(count, 4);
}

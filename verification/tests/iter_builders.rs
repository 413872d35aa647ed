use jix::util::iter::block::NdIterExtBlockOffsetSize;
use jix::util::iter::nd::NdIterExtension;
use jix::util::iter::nd::NdIter;
use jix::util::iter::strides::{nd_iter_ext_logical_global_index, NdIterExtStridesOffset};
use jix::util::{default_logical_strides_slice, next_power_of_two};

#[test]
fn builder_logical_global_index_counts_row_major() {
    let mut it = NdIter::builder(vec![2, 3]).with_logical_global_index_ext(&[2, 3]).build();
    let mut got = Vec::new();
    while let Some((idx, g)) = it.next() {
        got.push((idx, g));
    }
    assert_eq!(
        got,
        vec![
            (vec![0, 0], 0),
            (vec![0, 1], 1),
            (vec![0, 2], 2),
            (vec![1, 0], 3),
            (vec![1, 1], 4),
            (vec![1, 2], 5),
        ],
    );
}

#[test]
fn builder_logical_global_index_starts_at_begin() {
    let builder = NdIter::builder_with_begin(vec![1, 1], vec![2, 3]);
    assert_eq!(builder.begin_slice(), &[1, 1]);
    let mut it = builder.with_logical_global_index_ext(&[2, 3]).build();
    assert_eq!(it.next(), Some((vec![1, 1], 4)));
    assert_eq!(it.next(), Some((vec![1, 2], 5)));
    assert_eq!(it.next(), None);
}

#[test]
fn logical_global_index_extension_starts_at_the_begin_offset() {
    let ext = nd_iter_ext_logical_global_index(&[4, 5], &[2, 3]);
    let mut it = NdIter::new_with_begin(vec![2, 3], vec![3, 5], ext);
    assert_eq!(it.next(), Some((vec![2, 3], 13)));
    assert_eq!(it.next(), Some((vec![2, 4], 14)));
    assert_eq!(it.next(), None);
}

#[test]
fn builder_strides_offset_multi_tracks_each_operand() {
    let mut it = NdIter::builder(vec![2, 2])
        .with_strides_offset_multi_ext([vec![2u64, 1], vec![1, 2]], [0, 10])
        .build();
    let mut got = Vec::new();
    while let Some((_, offs)) = it.next() {
        got.push(offs);
    }
    assert_eq!(got, vec![[0, 10], [1, 12], [2, 11], [3, 13]]);
}

#[test]
fn builder_strides_offset_multi_dyn_tracks_each_operand() {
    let mut it = NdIter::builder(vec![2, 2])
        .with_strides_offset_multi_dyn_ext(vec![vec![2usize, 1], vec![1, 2], vec![0, 0]], vec![0, 10, 7])
        .build();
    let mut got = Vec::new();
    while let Some((_, offs)) = it.next() {
        got.push(offs);
    }
    assert_eq!(got, vec![vec![0, 10, 7], vec![1, 12, 7], vec![2, 11, 7], vec![3, 13, 7]]);
}

#[test]
fn builder_chains_extensions_into_a_tuple() {
    let mut it = NdIter::builder(vec![3])
        .with_strides_offset_ext(vec![2u32], 1)
        .with_logical_global_index_ext(&[3])
        .build();
    assert_eq!(it.next(), Some((vec![0], (1u32, 0u64))));
    assert_eq!(it.next(), Some((vec![1], (3, 1))));
    assert_eq!(it.next(), Some((vec![2], (5, 2))));
    assert_eq!(it.next(), None);
}

#[test]
fn builder_with_ext_appends_a_given_extension() {
    let mut it = NdIter::builder(vec![2])
        .with_ext(NdIterExtStridesOffset::new(vec![5u16], 3))
        .build();
    assert_eq!(it.next(), Some((vec![0], 3)));
    assert_eq!(it.next(), Some((vec![1], 8)));
    assert_eq!(it.next(), None);
}

#[test]
fn builder_block_offset_size_clips_each_block() {
    let mut it = NdIter::builder_with_begin(vec![0], vec![2])
        .with_block_offset_size_ext(&[1], &[5], vec![3])
        .build();
    assert_eq!(it.next(), Some((vec![0], (vec![1], vec![2]))));
    assert_eq!(it.next(), Some((vec![1], (vec![0], vec![2]))));
    assert_eq!(it.next(), None);
}

#[test]
fn nd_iter_remaining_counts_down() {
    let mut it = NdIter::new(vec![2, 3], ());
    assert_eq!(it.remaining(), Some(6));
    it.next();
    assert_eq!(it.remaining(), Some(5));
    for _ in 0..5 {
        it.next();
    }
    assert_eq!(it.remaining(), Some(0));
    assert_eq!(it.next(), None);
    assert_eq!(it.remaining(), Some(0));
}

#[test]
fn default_logical_strides_are_row_major_element_strides() {
    assert_eq!(default_logical_strides_slice(&[2u64, 3, 4]), vec![12, 4, 1]);
    assert_eq!(default_logical_strides_slice::<usize>(&[]), Vec::<usize>::new());
}

#[test]
fn next_power_of_two_rounds_up() {
    assert_eq!(next_power_of_two(1), 1);
    assert_eq!(next_power_of_two(5), 8);
    assert_eq!(next_power_of_two(8), 8);
    assert_eq!(next_power_of_two(1 << 62), 1 << 62);
}

#[test]
fn block_offset_size_on_an_empty_range_reports_offset_and_no_items() {
    let ext = NdIterExtBlockOffsetSize::new(&[5, 1], &[5, 3], vec![4, 3]);
    assert_eq!(ext.value(), (vec![1, 1], vec![0, 2]));
}

use jix::storage::elementwise_pipeline::{
    chunk_cursors, chunk_len_max, n_operands_mul, n_operands_sum, pick_output_layout, run_chunks, staging_plan,
    InnerLoopFlags, STAGING_BUFFER_SIZE,
};

#[test]
fn small_output_is_row_major() {
    // 6 bytes: too small for the order to matter.
    assert_eq!(pick_output_layout(&[&[1, 3]], &[2, 3], 1), vec![3, 1]);
}

#[test]
fn one_dimensional_output_is_row_major() {
    assert_eq!(pick_output_layout(&[&[8]], &[10000], 4), vec![4]);
}

#[test]
fn large_output_follows_a_column_major_operand() {
    // 64 x 128 items of 4 bytes, read from a column-major operand.
    assert_eq!(pick_output_layout(&[&[4, 256]], &[64, 128], 4), vec![4, 256]);
}

#[test]
fn large_output_follows_operands_that_agree() {
    let a: &[usize] = &[4, 256];
    let b: &[usize] = &[8, 512];
    assert_eq!(pick_output_layout(&[a, b], &[64, 128], 4), vec![4, 256]);
}

#[test]
fn operands_that_disagree_give_row_major() {
    let c_order: &[usize] = &[512, 4];
    let f_order: &[usize] = &[4, 256];
    assert_eq!(pick_output_layout(&[c_order, f_order], &[64, 128], 4), vec![512, 4]);
}

#[test]
fn axes_an_operand_does_not_move_along_go_outermost() {
    // Axis 0 is broadcast (stride 0) and axis 1 is 1 long: both go outside axis 2, in their
    // order they come in.
    assert_eq!(pick_output_layout(&[&[0, 7, 4]], &[64, 1, 128], 4), vec![512, 512, 4]);
    // A broadcast innermost axis is moved outside the others.
    assert_eq!(pick_output_layout(&[&[4, 256, 0]], &[64, 16, 8], 4), vec![4, 256, 4096]);
}

#[test]
fn no_operands_give_row_major() {
    assert_eq!(pick_output_layout(&[], &[64, 128], 4), vec![512, 4]);
}

#[test]
fn operand_counts_add_up_when_all_are_known() {
    assert_eq!(n_operands_sum(&[Some(2), Some(3)]), Some(5));
    assert_eq!(n_operands_sum(&[]), Some(0));
    assert_eq!(n_operands_sum(&[Some(1), None, Some(2)]), None);
    assert_eq!(n_operands_sum(&[None, Some(usize::MAX), Some(1)]), None);
}

#[test]
fn operand_count_of_copies() {
    assert_eq!(n_operands_mul(Some(3), 4), Some(12));
    assert_eq!(n_operands_mul(None, 4), None);
}

#[test]
fn misaligned_operands_are_staged_and_count_as_contiguous() {
    // The output is aligned but strided; input 1 has a misaligned base; input 2 is fine.
    let (staged, flags) =
        staging_plan(&[true, true, true], &[true, false, true], &[false, false, true]);
    assert_eq!(staged, vec![false, true, false]);
    assert_eq!(flags, InnerLoopFlags { inputs_contiguous: true, output_contiguous: false });
}

#[test]
fn a_strided_unstaged_input_makes_the_inputs_strided() {
    let (staged, flags) = staging_plan(&[false, true], &[true, true], &[true, false]);
    assert_eq!(staged, vec![true, false]);
    assert_eq!(flags, InnerLoopFlags { inputs_contiguous: false, output_contiguous: true });
}

#[test]
fn chunks_are_bounded_by_the_staging_buffer() {
    assert_eq!(chunk_len_max(10), 10);
    assert_eq!(chunk_len_max(STAGING_BUFFER_SIZE), STAGING_BUFFER_SIZE);
    assert_eq!(chunk_len_max(100_000), STAGING_BUFFER_SIZE);
}

#[test]
fn a_run_splits_into_full_chunks_and_a_remainder() {
    assert_eq!(run_chunks(10, 4), vec![(0, 4), (4, 4), (8, 2)]);
    assert_eq!(run_chunks(8, 4), vec![(0, 4), (4, 4)]);
    assert_eq!(run_chunks(3, 8), vec![(0, 3)]);
    assert_eq!(run_chunks(0, 8), Vec::<(usize, usize)>::new());
}

#[test]
fn chunk_cursors_point_every_operand_at_each_chunk() {
    let runs = vec![vec![0usize, 100], vec![10, 200]];
    let r = chunk_cursors(&runs, 5, &[1, 2], 2);
    assert_eq!(
        r,
        vec![
            vec![(vec![0, 100], 2), (vec![2, 104], 2), (vec![4, 108], 1)],
            vec![(vec![10, 200], 2), (vec![12, 204], 2), (vec![14, 208], 1)],
        ],
    );
    assert_eq!(chunk_cursors(&runs, 0, &[1, 2], 4), vec![Vec::<(Vec<usize>, usize)>::new(); 2]);
}

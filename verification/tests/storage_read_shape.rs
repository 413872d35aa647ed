use jix::storage::params::ArrayParams;
use jix::storage::params::read_shape_scale_dims;

#[test]
fn read_shape_scale_dims_leaves_unselected_dims_at_one() {
    let r = read_shape_scale_dims(&[4, 8], &[1, 0], &[10, 8], &[10, 8], (64, 64), &[false, true]);
    assert_eq!(r, vec![1, 8]);
}

#[test]
fn read_shape_scale_dims_grows_in_scale_order() {
    let r = read_shape_scale_dims(&[2, 2], &[1, 0], &[10, 10], &[20, 30], (16, 64), &[true, true]);
    assert_eq!(r, vec![2, 8]);
}

#[test]
fn read_shape_scale_dims_snaps_full_ranges_to_the_array() {
    let r = read_shape_scale_dims(&[10, 1], &[0, 1], &[10, 3], &[50, 3], (30, 64), &[true, true]);
    assert_eq!(r, vec![50, 3]);
}

#[test]
fn scale_block_shape_tolerates_zero_lengths_when_nothing_long_is_scaled() {
    assert_eq!(ArrayParams::scale_block_shape(&[0, 4], &[true, false], 1000, &[1, 100]), vec![1, 4]);
    assert_eq!(ArrayParams::scale_block_shape(&[3, 0], &[false, true], 1000, &[9, 0]), vec![3, 1]);
    assert_eq!(ArrayParams::block_len_heuristic(0, 1, 10, 0), 1);
}

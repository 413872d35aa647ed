use jix::util::nd_iter_unordered::{axes_sort_by, AxisRank, NdIterUnordered, NdIterUnorderedDyn};

/// The innermost-run flags a walk reports.
#[derive(Clone, Debug, PartialEq, Eq)]
struct Flags {
    inner_len: usize,
    is_aligned: Vec<bool>,
    is_contiguous: Vec<bool>,
}

/// Everything a walk reveals: the offsets of every element in visitation order, its flags, and
/// how many inner runs it performs.
struct Run {
    visited: Vec<Vec<usize>>,
    flags: Flags,
    inner_calls: usize,
}

fn expand(runs: Vec<Vec<usize>>, inner_len: usize, inner_strides: &[usize]) -> (Vec<Vec<usize>>, usize) {
    let mut visited = Vec::new();
    let calls = runs.len();
    for base in runs {
        for k in 0..inner_len {
            visited.push(base.iter().zip(inner_strides).map(|(b, s)| b + k * s).collect());
        }
    }
    (visited, calls)
}

fn run<const N: usize>(shape: &[usize], strides: [&[usize]; N], layouts: [(usize, usize); N]) -> Run {
    run_with(shape, strides, layouts, [true; N])
}

fn run_with<const N: usize>(
    shape: &[usize],
    strides: [&[usize]; N],
    layouts: [(usize, usize); N],
    affects_dim_order: [bool; N],
) -> Run {
    let iter = NdIterUnordered::new_with(shape, strides, layouts, affects_dim_order);
    let flags = Flags {
        inner_len: iter.inner_len(),
        is_aligned: iter.is_aligned().to_vec(),
        is_contiguous: iter.is_contiguous().to_vec(),
    };
    let (visited, inner_calls) = expand(iter.runs(), iter.inner_len(), &iter.inner_strides());
    // An empty region visits nothing.
    let visited = if flags.inner_len == 0 { Vec::new() } else { visited };
    Run { visited, flags, inner_calls }
}

/// A naive row-major walk: the per-operand offset tuple for each element, in C order.
fn reference<const N: usize>(shape: &[usize], strides: [&[usize]; N]) -> Vec<Vec<usize>> {
    let ndim = shape.len();
    if shape.contains(&0) {
        return Vec::new();
    }
    let mut out = Vec::new();
    let mut idx = vec![0usize; ndim];
    loop {
        out.push((0..N).map(|i| (0..ndim).map(|d| idx[d] * strides[i][d]).sum::<usize>()).collect());
        let mut d = ndim;
        loop {
            if d == 0 {
                return out;
            }
            d -= 1;
            idx[d] += 1;
            if idx[d] < shape[d] {
                break;
            }
            idx[d] = 0;
        }
    }
}

fn assert_visits<const N: usize>(
    shape: &[usize],
    strides: [&[usize]; N],
    layouts: [(usize, usize); N],
) -> Run {
    let run = run(shape, strides, layouts);
    let mut got = run.visited.clone();
    let mut expected = reference(shape, strides);
    got.sort_unstable();
    expected.sort_unstable();
    assert_eq!(got, expected, "offset multiset mismatch for shape={shape:?} strides={strides:?}");
    run
}

fn strided_strides(shape: &[usize], mult: &[usize], itemsize: usize) -> Vec<usize> {
    let ndim = shape.len();
    let backing = (0..ndim).map(|d| shape[d] * mult[d]).collect::<Vec<_>>();
    let mut cstr = vec![0usize; ndim];
    let mut acc = itemsize;
    for d in (0..ndim).rev() {
        cstr[d] = acc;
        acc *= backing[d];
    }
    (0..ndim).map(|d| cstr[d] * mult[d]).collect()
}

#[test]
fn one_d_contiguous_is_a_single_coalesced_run() {
    let run = assert_visits(&[5], [&[1]], [(1, 1)]);
    assert_eq!(run.flags.inner_len, 5);
    assert_eq!(run.flags.is_contiguous, [true]);
    assert_eq!(run.flags.is_aligned, [true]);
    assert_eq!(run.inner_calls, 1);
    assert_eq!(run.visited, [[0], [1], [2], [3], [4]]);
}

#[test]
fn one_d_strided_is_not_contiguous() {
    let run = assert_visits(&[4], [&[2]], [(1, 1)]);
    assert_eq!(run.flags.inner_len, 4);
    assert_eq!(run.flags.is_contiguous, [false]);
    assert_eq!(run.flags.is_aligned, [true]);
    assert_eq!(run.visited, [[0], [2], [4], [6]]);
}

#[test]
fn c_order_2d_coalesces_to_one_run() {
    let run = assert_visits(&[3, 4], [&[4, 1]], [(1, 1)]);
    assert_eq!(run.flags.inner_len, 12);
    assert_eq!(run.flags.is_contiguous, [true]);
    assert_eq!(run.inner_calls, 1);
}

#[test]
fn f_order_2d_is_sorted_then_coalesced() {
    let run = assert_visits(&[3, 4], [&[1, 3]], [(1, 1)]);
    assert_eq!(run.flags.inner_len, 12);
    assert_eq!(run.flags.is_contiguous, [true]);
    assert_eq!(run.inner_calls, 1);
}

#[test]
fn strided_outer_axis_does_not_coalesce() {
    let run = assert_visits(&[2, 3], [&[10, 1]], [(1, 1)]);
    assert_eq!(run.flags.inner_len, 3);
    assert_eq!(run.flags.is_contiguous, [true]);
    assert_eq!(run.inner_calls, 2);
}

#[test]
fn size_one_axes_are_dropped() {
    let run = assert_visits(&[1, 4, 1], [&[100, 1, 50]], [(1, 1)]);
    assert_eq!(run.flags.inner_len, 4);
    assert_eq!(run.flags.is_contiguous, [true]);
    assert_eq!(run.inner_calls, 1);
    let mut got = run.visited.clone();
    got.sort_unstable();
    assert_eq!(got, [[0], [1], [2], [3]]);
}

#[test]
fn all_axes_size_one_is_a_single_element() {
    let run = assert_visits(&[1, 1], [&[7, 3]], [(1, 1)]);
    assert_eq!(run.flags.inner_len, 1);
    assert_eq!(run.flags.is_contiguous, [true]);
    assert_eq!(run.flags.is_aligned, [true]);
    assert_eq!(run.inner_calls, 1);
    assert_eq!(run.visited, [[0]]);
}

#[test]
fn zero_dim_shape_is_a_single_element() {
    let run = assert_visits(&[], [&[]], [(4, 4)]);
    assert_eq!(run.flags.inner_len, 1);
    assert_eq!(run.inner_calls, 1);
    assert_eq!(run.visited, [[0]]);
}

#[test]
fn empty_region_visits_nothing() {
    for shape in [vec![0], vec![0, 3], vec![2, 0, 3], vec![2, 3, 0]] {
        let strides = (0..shape.len()).map(|d| d + 1).collect::<Vec<_>>();
        let run = run(&shape, [strides.as_slice()], [(1, 1)]);
        assert!(run.visited.is_empty(), "shape={shape:?}");
        assert_eq!(run.flags.inner_len, 0, "shape={shape:?}");
    }
}

#[test]
fn aligned_flag_tracks_stride_divisibility() {
    let run = assert_visits(&[3], [&[5]], [(4, 4)]);
    assert_eq!(run.flags.is_aligned, [false]);
    assert_eq!(run.flags.is_contiguous, [false]);
    assert_eq!(run.visited, [[0], [5], [10]]);

    let run = assert_visits(&[3], [&[8]], [(4, 4)]);
    assert_eq!(run.flags.is_aligned, [true]);
    assert_eq!(run.flags.is_contiguous, [false]);
}

#[test]
fn zero_strides_broadcast_to_repeated_offsets() {
    let run = assert_visits(&[2, 3], [&[0, 0]], [(1, 1)]);
    assert_eq!(run.flags.inner_len, 6);
    assert_eq!(run.flags.is_contiguous, [false]);
    assert_eq!(run.flags.is_aligned, [true]);
    assert_eq!(run.visited, [[0]; 6]);
}

#[test]
fn two_operands_c_order_coalesce_together() {
    let run = assert_visits(&[2, 3], [&[12, 4], &[3, 1]], [(4, 4), (1, 1)]);
    assert_eq!(run.flags.inner_len, 6);
    assert_eq!(run.flags.is_contiguous, [true, true]);
    assert_eq!(run.flags.is_aligned, [true, true]);
    assert_eq!(run.inner_calls, 1);
    assert_eq!(run.visited, [[0, 0], [4, 1], [8, 2], [12, 3], [16, 4], [20, 5]]);
}

#[test]
fn two_operands_split_when_one_is_strided() {
    let run = assert_visits(&[2, 3], [&[12, 4], &[1, 2]], [(4, 4), (1, 1)]);
    assert_eq!(run.flags.inner_len, 3);
    assert_eq!(run.flags.is_contiguous, [true, false]);
    assert_eq!(run.flags.is_aligned, [true, true]);
    assert_eq!(run.inner_calls, 2);
}

/// A small deterministic pseudo-random generator for the exhaustive-ish checks below.
struct Lcg(u64);
impl Lcg {
    fn next(&mut self, bound: usize) -> usize {
        self.0 = self.0.wrapping_mul(6364136223846793005).wrapping_add(1442695040888963407);
        ((self.0 >> 33) as usize) % bound
    }
}

#[test]
fn prop_matches_reference_random_strides() {
    let mut rng = Lcg(0xA11CE);
    for _ in 0..256 {
        let ndim = rng.next(5);
        let shape: Vec<usize> = (0..ndim).map(|_| 1 + rng.next(4)).collect();
        let s0: Vec<usize> = (0..ndim).map(|_| rng.next(7)).collect();
        let s1: Vec<usize> = (0..ndim).map(|_| rng.next(7)).collect();
        assert_visits(&shape, [&s0, &s1], [(1, 1), (1, 1)]);
    }
}

#[test]
fn prop_matches_reference_permuted_contiguous_layouts() {
    let mut rng = Lcg(0xB0B);
    for _ in 0..256 {
        let ndim = rng.next(5);
        let base_shape: Vec<usize> = (0..ndim).map(|_| 1 + rng.next(4)).collect();
        let m0: Vec<usize> = (0..ndim).map(|_| 1 + rng.next(3)).collect();
        let m1: Vec<usize> = (0..ndim).map(|_| 1 + rng.next(3)).collect();
        let is0 = [1usize, 2, 4][rng.next(3)];
        let is1 = [1usize, 2, 4][rng.next(3)];
        let mut perm: Vec<usize> = (0..ndim).collect();
        for i in (1..ndim).rev() {
            let j = rng.next(i + 1);
            perm.swap(i, j);
        }
        let phys0 = strided_strides(&base_shape, &m0, is0);
        let phys1 = strided_strides(&base_shape, &m1, is1);
        let shape = perm.iter().map(|&d| base_shape[d]).collect::<Vec<_>>();
        let s0 = perm.iter().map(|&d| phys0[d]).collect::<Vec<_>>();
        let s1 = perm.iter().map(|&d| phys1[d]).collect::<Vec<_>>();
        assert_visits(&shape, [&s0, &s1], [(is0, is0), (is1, is1)]);
    }
}

#[test]
fn prop_empty_region_visits_nothing() {
    let mut rng = Lcg(0xDEAD);
    let mut checked = 0;
    while checked < 64 {
        let ndim = 1 + rng.next(4);
        let shape: Vec<usize> = (0..ndim).map(|_| rng.next(4)).collect();
        if !shape.contains(&0) {
            continue;
        }
        let s0: Vec<usize> = (0..ndim).map(|_| rng.next(7)).collect();
        let run = run(&shape, [s0.as_slice()], [(1, 1)]);
        assert!(run.visited.is_empty());
        checked += 1;
    }
}

fn rank_of<T: Ord>(a: T, b: T) -> Option<AxisRank> {
    Some(match a.cmp(&b) {
        std::cmp::Ordering::Less => AxisRank::Less,
        std::cmp::Ordering::Equal => AxisRank::Equal,
        std::cmp::Ordering::Greater => AxisRank::Greater,
    })
}

fn sorted(mut axes: Vec<usize>) -> Vec<usize> {
    axes_sort_by(&mut axes, |a, b| rank_of(a, b));
    axes
}

#[test]
fn axes_sort_by_orders_ascending() {
    assert_eq!(sorted(vec![]), Vec::<usize>::new());
    assert_eq!(sorted(vec![7]), vec![7]);
    assert_eq!(sorted(vec![1, 2, 3]), vec![1, 2, 3]);
    assert_eq!(sorted(vec![3, 2, 1]), vec![1, 2, 3]);
    assert_eq!(sorted(vec![2, 0, 3, 1]), vec![0, 1, 2, 3]);
    assert_eq!(sorted(vec![5, 4, 5, 4]), vec![4, 4, 5, 5]);
}

#[test]
fn axes_sort_by_is_stable() {
    let mut axes = vec![0, 1, 2, 3, 4, 5, 6, 7, 8];
    axes_sort_by(&mut axes, |a, b| rank_of(a % 3, b % 3));
    assert_eq!(axes, vec![0, 3, 6, 1, 4, 7, 2, 5, 8]);
}

#[test]
fn axes_sort_by_compares_elements_not_positions() {
    let rank = |axis: usize| match axis {
        10 => 2usize,
        11 => 0,
        12 => 1,
        other => panic!("comparator got {other}, which is a position, not an element"),
    };
    let mut axes = vec![10, 11, 12];
    axes_sort_by(&mut axes, |a, b| rank_of(rank(a), rank(b)));
    assert_eq!(axes, vec![11, 12, 10]);
}

#[test]
fn axes_sort_by_ranks_axes_by_descending_stride() {
    fn sort_by_strides(strides: &[&[usize]], axes: &mut Vec<usize>) {
        axes_sort_by(axes, |d1, d2| {
            for s in strides {
                match s[d1].cmp(&s[d2]) {
                    std::cmp::Ordering::Less => return Some(AxisRank::Greater),
                    std::cmp::Ordering::Equal => {}
                    std::cmp::Ordering::Greater => return Some(AxisRank::Less),
                }
            }
            Some(AxisRank::Equal)
        });
    }

    let mut axes = vec![0, 1, 2];
    sort_by_strides(&[&[4, 400, 40], &[1, 100, 10]], &mut axes);
    assert_eq!(axes, [1, 2, 0]);

    let mut axes = vec![0, 1];
    sort_by_strides(&[&[8, 8], &[1, 2]], &mut axes);
    assert_eq!(axes, [1, 0]);
}

#[test]
fn inner_strides_reports_the_innermost_run_stride_per_operand() {
    let iter = NdIterUnordered::new(&[2, 3], [&[3, 1], &[1, 2]], [(1, 1); 2]);
    assert_eq!(iter.inner_strides(), [1, 2]);
    assert_eq!(iter.inner_len(), 3);
}

#[test]
fn zero_stride_abstains_instead_of_sorting_innermost() {
    let shape = [4, 5];
    let iter = NdIterUnordered::new(&shape, [&[0, 8], &[40, 8]], [(8, 8); 2]);
    assert_eq!(iter.inner_strides(), [8, 8]);
    assert_eq!(iter.is_contiguous(), [true, true]);
    assert_visits(&shape, [&[0, 8], &[40, 8]], [(8, 8); 2]);
}

#[test]
fn new_with_can_exclude_an_operand_from_the_dim_order() {
    let strides: [&[usize]; 2] = [&[8, 8], &[4, 100]];
    let included = NdIterUnordered::new(&[4, 5], strides, [(4, 4); 2]);
    assert_eq!(included.inner_strides(), [8, 4]);

    let excluded = NdIterUnordered::new_with(&[4, 5], strides, [(4, 4); 2], [true, false]);
    assert_eq!(excluded.inner_strides(), [8, 100]);
}

#[test]
fn new_with_still_coalesces_against_an_excluded_operand() {
    let iter = NdIterUnordered::new_with(&[2, 3], [&[3, 1], &[5, 1]], [(1, 1); 2], [true, false]);
    assert_eq!(iter.inner_len(), 3);
    let run = run_with(&[2, 3], [&[3, 1], &[5, 1]], [(1, 1); 2], [true, false]);
    assert_eq!(run.inner_calls, 2);
}

#[test]
fn axes_sort_by_treats_an_ambiguous_comparison_as_transparent() {
    let mut axes = vec![0, 1, 2];
    axes_sort_by(&mut axes, |d0, d1| match (d0, d1) {
        (2, 1) => None,
        (2, 0) => Some(AxisRank::Less),
        (1, 0) => Some(AxisRank::Greater),
        other => panic!("unexpected comparison {other:?}"),
    });
    assert_eq!(axes, vec![2, 0, 1]);
}

fn run_dyn(shape: &[usize], strides: &[&[usize]], layouts: &[(usize, usize)]) -> (Vec<Vec<usize>>, usize) {
    let iter = NdIterUnorderedDyn::new(shape, strides, layouts);
    if iter.inner_len() == 0 {
        return (Vec::new(), 0);
    }
    let (visited, calls) = expand(iter.runs(), iter.inner_len(), &iter.inner_strides());
    (visited, calls)
}

#[test]
fn dyn_matches_reference_for_any_operand_count() {
    let mut rng = Lcg(0xD1);
    for _ in 0..128 {
        let ndim = rng.next(4);
        let nops = rng.next(4);
        let shape: Vec<usize> = (0..ndim).map(|_| 1 + rng.next(4)).collect();
        let strides: Vec<Vec<usize>> = (0..nops).map(|_| (0..ndim).map(|_| rng.next(7)).collect()).collect();
        let refs: Vec<&[usize]> = strides.iter().map(|s| s.as_slice()).collect();
        let layouts = vec![(1usize, 1usize); nops];
        let (mut got, _) = run_dyn(&shape, &refs, &layouts);
        let mut expected: Vec<Vec<usize>> = Vec::new();
        if !shape.contains(&0) {
            let total: usize = shape.iter().product();
            let mut idx = vec![0usize; ndim];
            for _ in 0..total {
                expected.push((0..nops).map(|o| (0..ndim).map(|d| idx[d] * strides[o][d]).sum()).collect());
                for d in (0..ndim).rev() {
                    idx[d] += 1;
                    if idx[d] < shape[d] {
                        break;
                    }
                    idx[d] = 0;
                }
            }
        }
        got.sort_unstable();
        expected.sort_unstable();
        assert_eq!(got, expected);
    }
}

#[test]
fn dyn_coalesces_and_reports_flags() {
    let iter = NdIterUnorderedDyn::new(&[2, 3], &[&[12, 4], &[3, 1]], &[(4, 4), (1, 1)]);
    assert_eq!(iter.inner_len(), 6);
    assert_eq!(iter.is_contiguous(), &[true, true]);
    assert_eq!(iter.is_aligned(), &[true, true]);
    assert_eq!(iter.runs(), vec![vec![0, 0]]);
}

#[test]
fn flags_are_set_when_nothing_is_stepped_over() {
    let single = NdIterUnordered::new(&[1], [&[5usize][..]], [(3, 2)]);
    assert_eq!(single.is_aligned(), &[true]);
    assert_eq!(single.is_contiguous(), &[true]);
    let empty = NdIterUnordered::new(&[0, 4], [&[5usize, 7][..]], [(3, 2)]);
    assert_eq!(empty.is_aligned(), &[true]);
    assert_eq!(empty.is_contiguous(), &[true]);
    let dyn_single = NdIterUnorderedDyn::new(&[1, 1], &[&[5usize, 9][..]], &[(3, 2)]);
    assert_eq!(dyn_single.is_aligned(), &[true]);
    let stepped = NdIterUnordered::new(&[2], [&[5usize][..]], [(3, 2)]);
    assert_eq!(stepped.is_aligned(), &[false]);
    assert_eq!(stepped.is_contiguous(), &[false]);
}

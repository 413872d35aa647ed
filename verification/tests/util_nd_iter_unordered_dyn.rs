use jix::util::nd_iter_unordered::{NdIterUnordered, NdIterUnorderedDyn};

/// Everything a walk reveals: its flags, the offsets of every element in visitation order, and
/// how many inner runs it performs.
#[derive(Debug, PartialEq)]
struct Walk {
    inner_len: usize,
    is_aligned: Vec<bool>,
    is_contiguous: Vec<bool>,
    visited: Vec<Vec<usize>>,
    inner_calls: usize,
}

fn expand(runs: Vec<Vec<usize>>, inner_len: usize, inner_strides: &[usize]) -> (Vec<Vec<usize>>, usize) {
    if inner_len == 0 {
        // An empty region visits nothing.
        return (Vec::new(), 0);
    }
    let mut visited = Vec::new();
    let calls = runs.len();
    for base in runs {
        for k in 0..inner_len {
            visited.push(base.iter().zip(inner_strides).map(|(b, s)| b + k * s).collect());
        }
    }
    (visited, calls)
}

fn walk_dyn(shape: &[usize], strides: &[&[usize]], layouts: &[(usize, usize)]) -> Walk {
    let iter = NdIterUnorderedDyn::new(shape, strides, layouts);
    let (visited, inner_calls) = expand(iter.runs(), iter.inner_len(), &iter.inner_strides());
    Walk {
        inner_len: iter.inner_len(),
        is_aligned: iter.is_aligned().to_vec(),
        is_contiguous: iter.is_contiguous().to_vec(),
        visited,
        inner_calls,
    }
}

fn walk_const<const N: usize>(
    shape: &[usize],
    strides: [&[usize]; N],
    layouts: [(usize, usize); N],
) -> Walk {
    let iter = NdIterUnordered::new(shape, strides, layouts);
    let (visited, inner_calls) = expand(iter.runs(), iter.inner_len(), &iter.inner_strides());
    Walk {
        inner_len: iter.inner_len(),
        is_aligned: iter.is_aligned().to_vec(),
        is_contiguous: iter.is_contiguous().to_vec(),
        visited,
        inner_calls,
    }
}

/// The runtime-count walk must be indistinguishable from the const-generic one on the same input.
fn assert_same<const N: usize>(
    shape: &[usize],
    strides: [&[usize]; N],
    layouts: [(usize, usize); N],
) -> Walk {
    let got = walk_dyn(shape, &strides, &layouts);
    let expected = walk_const(shape, strides, layouts);
    assert_eq!(
        got, expected,
        "dyn walk differs from NdIterUnordered<{N}> for shape={shape:?} strides={strides:?} layouts={layouts:?}"
    );
    got
}

fn strided_strides(shape: &[usize], mult: &[usize], itemsize: usize) -> Vec<usize> {
    let ndim = shape.len();
    let backing = (0..ndim).map(|d| shape[d] * mult[d]).collect::<Vec<_>>();
    let mut cstr = vec![0usize; ndim];
    let mut acc = itemsize;
    for d in (0..ndim).rev() {
        cstr[d] = acc;
        acc *= backing[d];
    }
    (0..ndim).map(|d| cstr[d] * mult[d]).collect()
}

type Case<'a> = (&'a [usize], [&'a [usize]; 2], [(usize, usize); 2]);

#[test]
fn matches_const_generic_on_every_walk_shape() {
    let cases: &[Case] = &[
        (&[5], [&[1], &[4]], [(1, 1), (4, 4)]),
        (&[4], [&[2], &[8]], [(1, 1), (4, 4)]),
        (&[3, 4], [&[4, 1], &[16, 4]], [(1, 1), (4, 4)]),
        (&[3, 4], [&[1, 3], &[4, 12]], [(1, 1), (4, 4)]),
        (&[2, 3], [&[10, 1], &[40, 4]], [(1, 1), (4, 4)]),
        (&[2, 3], [&[12, 4], &[1, 2]], [(4, 4), (1, 1)]),
        (&[1, 4, 1], [&[100, 1, 50], &[7, 4, 9]], [(1, 1), (4, 4)]),
        (&[1, 1], [&[7, 3], &[8, 4]], [(1, 1), (4, 4)]),
        (&[], [&[], &[]], [(4, 4), (1, 1)]),
        (&[2, 0, 3], [&[9, 3, 1], &[36, 12, 4]], [(1, 1), (4, 4)]),
        (&[2, 3], [&[0, 0], &[4, 4]], [(1, 1), (4, 4)]),
        (&[3], [&[5], &[8]], [(4, 4), (4, 4)]),
        (&[2, 3], [&[3, 1], &[1, 2]], [(1, 1), (1, 1)]),
        (&[2, 3, 4], [&[12, 4, 1], &[1, 2, 6]], [(1, 1), (1, 1)]),
        (&[2, 3, 4, 5], [&[60, 20, 5, 1], &[1, 2, 6, 24]], [(1, 1), (1, 1)]),
        (
            &[2, 3, 4, 5, 6],
            [&[360, 120, 30, 6, 1], &[1, 2, 6, 24, 120]],
            [(1, 1), (1, 1)],
        ),
    ];
    for &(shape, strides, layouts) in cases {
        assert_same(shape, strides, layouts);
    }
}

#[test]
fn operand_count_has_no_ceiling() {
    const N: usize = 20;
    let strides: [Vec<usize>; N] = std::array::from_fn(|i| vec![(i + 1) * 10, i + 1]);
    let refs: [&[usize]; N] = std::array::from_fn(|i| strides[i].as_slice());
    let layouts: [(usize, usize); N] = std::array::from_fn(|i| (i % 4 + 1, 1));
    let walk = assert_same(&[4, 6], refs, layouts);
    assert_eq!(walk.inner_len, 6);
    assert_eq!(walk.inner_calls, 4);
    assert_eq!(walk.visited.len(), 24);
    assert!(walk.visited.iter().all(|offsets| offsets.len() == N));
}

#[test]
fn zero_operands_walk_the_shape_and_yield_nothing() {
    let walk = assert_same::<0>(&[2, 3], [], []);
    assert_eq!(walk.inner_len, 6);
    assert_eq!(walk.inner_calls, 1);
    assert_eq!(walk.visited, vec![Vec::<usize>::new(); 6]);
}

/// A small deterministic pseudo-random generator standing in for a property-test runner.
struct Lcg(u64);
impl Lcg {
    fn next(&mut self, bound: usize) -> usize {
        self.0 = self.0.wrapping_mul(6364136223846793005).wrapping_add(1442695040888963407);
        ((self.0 >> 33) as usize) % bound
    }
}

#[test]
fn prop_matches_const_generic_random_strides() {
    let mut rng = Lcg(0x51DE);
    for _ in 0..256 {
        let ndim = rng.next(7);
        let shape: Vec<usize> = (0..ndim).map(|_| rng.next(4)).collect();
        let s0: Vec<usize> = (0..ndim).map(|_| rng.next(7)).collect();
        let s1: Vec<usize> = (0..ndim).map(|_| rng.next(7)).collect();
        let s2: Vec<usize> = (0..ndim).map(|_| rng.next(7)).collect();
        assert_same(&shape, [&s0, &s1, &s2], [(4, 4), (1, 1), (2, 2)]);
    }
}

#[test]
fn prop_matches_const_generic_permuted_contiguous_layouts() {
    let mut rng = Lcg(0xB0B);
    for _ in 0..256 {
        let ndim = rng.next(6);
        let base_shape: Vec<usize> = (0..ndim).map(|_| 1 + rng.next(4)).collect();
        let m0: Vec<usize> = (0..ndim).map(|_| 1 + rng.next(3)).collect();
        let m1: Vec<usize> = (0..ndim).map(|_| 1 + rng.next(3)).collect();
        let is0 = [1usize, 2, 4][rng.next(3)];
        let is1 = [1usize, 2, 4][rng.next(3)];
        let mut perm: Vec<usize> = (0..ndim).collect();
        for i in (1..ndim).rev() {
            let j = rng.next(i + 1);
            perm.swap(i, j);
        }
        let phys0 = strided_strides(&base_shape, &m0, is0);
        let phys1 = strided_strides(&base_shape, &m1, is1);
        let shape = perm.iter().map(|&d| base_shape[d]).collect::<Vec<_>>();
        let s0 = perm.iter().map(|&d| phys0[d]).collect::<Vec<_>>();
        let s1 = perm.iter().map(|&d| phys1[d]).collect::<Vec<_>>();
        assert_same(&shape, [&s0, &s1], [(is0, is0), (is1, is1)]);
    }
}

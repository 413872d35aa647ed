use vstd::prelude::*;
use crate::util::iter::nd::{
    as_ints, in_box, lemma_ravel_bounds, lemma_ravel_one_to_one, ravel, volume, IdxIter,
};
use crate::util::layout::{dot, lemma_seq_sum_append, terms, seq_sum};
use crate::util::layout::{
    lemma_seq_prod_remove, lemma_seq_prod_zero, lemma_walks_same_drop, lemma_walks_same_merge,
    lemma_walks_same_move, lemma_walks_same_refl, lemma_walks_same_trans, merged_shape,
    merged_strides, mergeable, moved, moved_strides, offsets, seq_prod, walks_same, well_shaped,
    within, lemma_seq_prod_pair, lemma_walks_same_unit, lemma_walks_same_empty, split_index,
};

verus! {

// ---------------------------------------------------------------------------
// Ordering the axes
// ---------------------------------------------------------------------------

/// How one axis ranks against another in the walk order: `Less` goes outside (first), `Greater`
/// inside.
#[derive(Clone, Copy, Debug, PartialEq, Eq, Structural)]
pub enum AxisRank {
    Less,
    Equal,
    Greater,
}

/// Where the insertion sort puts `arr[i]`: scanning `arr[i1]`, `arr[i1 - 1]`, .. down to `arr[0]`,
/// it moves in front of every entry it compares `Less` against, stops at the first entry it
/// compares `Equal` or `Greater` against, and passes over the entries it cannot compare against.
pub open spec fn insertion_index(
    rank: spec_fn(usize, usize) -> Option<AxisRank>,
    arr: Seq<usize>,
    i: int,
    i1: int,
    idx: int,
) -> int
    decreases i1 + 1,
{
    if i1 < 0 {
        idx
    } else {
        match rank(arr[i], arr[i1]) {
            Some(AxisRank::Less) => insertion_index(rank, arr, i, i1 - 1, i1),
            Some(_) => idx,
            None => insertion_index(rank, arr, i, i1 - 1, idx),
        }
    }
}

/// `arr` after the stable insertion sort has inserted `arr[i]`, `arr[i + 1]`, .. into the
/// prefix in front of it.
pub open spec fn insertion_sorted_from(
    rank: spec_fn(usize, usize) -> Option<AxisRank>,
    arr: Seq<usize>,
    i: int,
) -> Seq<usize>
    decreases arr.len() - i,
{
    if i < 1 || i >= arr.len() {
        arr
    } else {
        let q = insertion_index(rank, arr, i, i - 1, i);
        proof {
            lemma_insertion_index_bounds(rank, arr, i, i - 1, i);
        }
        insertion_sorted_from(rank, moved(arr, i, q), i + 1)
    }
}

pub proof fn lemma_insertion_index_bounds(
    rank: spec_fn(usize, usize) -> Option<AxisRank>,
    arr: Seq<usize>,
    i: int,
    i1: int,
    idx: int,
)
    requires
        -1 <= i1 < i,
        i1 + 1 <= idx <= i,
    ensures
        0 <= insertion_index(rank, arr, i, i1, idx) <= i,
    decreases i1 + 1,
{
    if i1 >= 0 {
        match rank(arr[i], arr[i1]) {
            Some(AxisRank::Less) => lemma_insertion_index_bounds(rank, arr, i, i1 - 1, i1),
            Some(_) => {},
            None => lemma_insertion_index_bounds(rank, arr, i, i1 - 1, idx),
        }
    }
}

/// The ranking a deterministic comparator closure computes, where it computes one.
pub open spec fn closure_rank<F: Fn(usize, usize) -> Option<AxisRank>>(compare: F) -> spec_fn(
    usize,
    usize,
) -> Option<AxisRank> {
    |a: usize, b: usize| choose|r: Option<AxisRank>| compare.ensures((a, b), r)
}

/// `x` is one of the first `k` entries of `s`.
pub open spec fn in_prefix(s: Seq<usize>, k: int, x: usize) -> bool {
    exists|j: int| 0 <= j < k && s[j] == x
}

/// Stable insertion sort of axis indices under a deterministic comparator that may leave a pair
/// unranked (`None`): such a pair is passed over, as [`insertion_index`] states. The comparator is
/// only called as `compare(arr[i], arr[j])` for positions `j < i` of the input, so it need only
/// accept, and answer one way, on those pairs.
pub fn axes_sort_by<F: Fn(usize, usize) -> Option<AxisRank>>(arr: &mut Vec<usize>, compare: F)
    requires
        forall|i: int, j: int|
            0 <= j < i < old(arr)@.len() ==> #[trigger] compare.requires((old(arr)@[i], old(arr)@[j])),
        forall|i: int, j: int, r1: Option<AxisRank>, r2: Option<AxisRank>|
            0 <= j < i < old(arr)@.len() && compare.ensures((old(arr)@[i], old(arr)@[j]), r1)
                && compare.ensures((old(arr)@[i], old(arr)@[j]), r2) ==> r1 == r2,
    ensures
        final(arr)@ == insertion_sorted_from(closure_rank(compare), old(arr)@, 1),
{
    let ghost start = arr@;
    assert forall|i: int, j: int, r: Option<AxisRank>|
        0 <= j < i < start.len() && compare.ensures((start[i], start[j]), r) implies r
        == closure_rank(compare)(start[i], start[j]) by {
        let r2 = choose|r2: Option<AxisRank>| compare.ensures((start[i], start[j]), r2);
        assert(compare.ensures((start[i], start[j]), r2));
    }
    axes_sort_by_ranked(arr, compare, Ghost(closure_rank(compare)));
}

/// [`axes_sort_by`] with the comparator's ranking given as `rank`.
pub(crate) fn axes_sort_by_ranked<F: Fn(usize, usize) -> Option<AxisRank>>(
    arr: &mut Vec<usize>,
    compare: F,
    Ghost(rank): Ghost<spec_fn(usize, usize) -> Option<AxisRank>>,
)
    requires
        forall|i: int, j: int|
            0 <= j < i < old(arr)@.len() ==> #[trigger] compare.requires((old(arr)@[i], old(arr)@[j])),
        forall|i: int, j: int, r: Option<AxisRank>|
            0 <= j < i < old(arr)@.len() && compare.ensures((old(arr)@[i], old(arr)@[j]), r) ==> r
                == rank(old(arr)@[i], old(arr)@[j]),
    ensures
        final(arr)@ == insertion_sorted_from(rank, old(arr)@, 1),
{
    let n = arr.len();
    let ghost start = arr@;
    let mut i: usize = 1;
    while i < n
        invariant
            1 <= i,
            n == arr@.len(),
            n == start.len(),
            insertion_sorted_from(rank, start, 1) == insertion_sorted_from(rank, arr@, i as int),
            forall|p: int, q: int|
                0 <= q < p < n ==> #[trigger] compare.requires((start[p], start[q])),
            forall|p: int, q: int, r: Option<AxisRank>|
                0 <= q < p < n && compare.ensures((start[p], start[q]), r) ==> r == rank(
                    start[p],
                    start[q],
                ),
            forall|j: int| i <= j < n ==> #[trigger] arr@[j] == start[j],
            forall|j: int| 0 <= j < i && j < n ==> #[trigger] in_prefix(start, i as int, arr@[j]),
        decreases n - i,
    {
        let ghost a = arr@;
        let x = arr[i];
        let mut idx = i;
        let mut i1 = i;
        let mut done = false;
        while i1 > 0 && !done
            invariant
                i < n,
                n == arr@.len(),
                n == start.len(),
                arr@ == a,
                x == a[i as int],
                x == start[i as int],
                i1 <= i,
                i1 <= idx <= i,
                !done ==> insertion_index(rank, a, i as int, i as int - 1, i as int) == insertion_index(
                    rank,
                    a,
                    i as int,
                    i1 - 1,
                    idx as int,
                ),
                done ==> insertion_index(rank, a, i as int, i as int - 1, i as int) == idx,
                forall|p: int, q: int|
                    0 <= q < p < n ==> #[trigger] compare.requires((start[p], start[q])),
                forall|p: int, q: int, r: Option<AxisRank>|
                    0 <= q < p < n && compare.ensures((start[p], start[q]), r) ==> r == rank(
                        start[p],
                        start[q],
                    ),
                forall|j: int| 0 <= j < i ==> #[trigger] in_prefix(start, i as int, a[j]),
            decreases i1 + if done { 0int } else { 1int },
        {
            let ghost jj = choose|jj: int| 0 <= jj < i && start[jj] == a[i1 - 1];
            proof {
                assert(in_prefix(start, i as int, a[i1 - 1]));
                assert(compare.requires((start[i as int], start[jj])));
            }
            let c = compare(x, arr[i1 - 1]);
            proof {
                assert(c == rank(start[i as int], start[jj]));
            }
            match c {
                Some(AxisRank::Less) => {
                    idx = i1 - 1;
                    i1 = i1 - 1;
                },
                Some(_) => {
                    done = true;
                },
                None => {
                    i1 = i1 - 1;
                },
            }
        }
        proof {
            lemma_insertion_index_bounds(rank, a, i as int, i as int - 1, i as int);
        }
        if idx != i {
            let mut k = i;
            while k > idx
                invariant
                    idx <= k <= i,
                    i < n,
                    n == arr@.len(),
                    x == a[i as int],
                    forall|j: int| 0 <= j < idx ==> arr@[j] == a[j],
                    forall|j: int| idx <= j < k ==> arr@[j] == a[j],
                    forall|j: int| k < j <= i ==> arr@[j] == a[j - 1],
                    forall|j: int| i < j < n ==> arr@[j] == a[j],
                decreases k,
            {
                let prev = arr[k - 1];
                arr.set(k, prev);
                k = k - 1;
            }
            arr.set(idx, x);
        }
        proof {
            assert(arr@ =~= moved(a, i as int, idx as int));
            assert forall|j: int| 0 <= j < i + 1 && j < n implies #[trigger] in_prefix(
                start,
                i as int + 1,
                arr@[j],
            ) by {
                let src: int = if j < idx {
                    j
                } else if j == idx {
                    i as int
                } else if j <= i {
                    j - 1
                } else {
                    j
                };
                assert(arr@[j] == a[src]);
                if src == i {
                    assert(start[i as int] == arr@[j]);
                } else {
                    assert(in_prefix(start, i as int, a[src]));
                    let w = choose|w: int| 0 <= w < i && start[w] == a[src];
                    assert(start[w] == arr@[j]);
                }
            }
        }
        i += 1;
    }
}

// ---------------------------------------------------------------------------
// Layouts seen through a list of axes
// ---------------------------------------------------------------------------

/// The values of a sequence of `usize`s.
pub open spec fn usize_ints(s: Seq<usize>) -> Seq<int> {
    Seq::new(s.len(), |d: int| s[d] as int)
}

/// The strides of every operand, as values.
pub open spec fn operand_strides(strides: Seq<&[usize]>) -> Seq<Seq<int>> {
    Seq::new(strides.len(), |o: int| usize_ints(strides[o]@))
}

/// The lengths of the listed axes.
pub open spec fn axes_shape(shape: Seq<int>, axes: Seq<usize>) -> Seq<int> {
    Seq::new(axes.len(), |k: int| shape[axes[k] as int])
}

/// Every operand's strides along the listed axes.
pub open spec fn axes_strides(strides: Seq<Seq<int>>, axes: Seq<usize>) -> Seq<Seq<int>> {
    Seq::new(strides.len(), |o: int| Seq::new(axes.len(), |k: int| strides[o][axes[k] as int]))
}

/// The axes `lo..hi`.
pub open spec fn axis_range(lo: int, hi: int) -> Seq<usize> {
    Seq::new((hi - lo) as nat, |k: int| (lo + k) as usize)
}

/// Sorting the axes by moves walks the same elements.
pub proof fn lemma_sorted_axes_walk_same(
    shape: Seq<int>,
    strides: Seq<Seq<int>>,
    rank: spec_fn(usize, usize) -> Option<AxisRank>,
    arr: Seq<usize>,
    i: int,
) -> (f: spec_fn(Seq<int>) -> Seq<int>)
    requires
        1 <= i,
        forall|k: int| 0 <= k < arr.len() ==> #[trigger] arr[k] < shape.len(),
        well_shaped(shape, strides),
    ensures
        walks_same(
            axes_shape(shape, arr),
            axes_strides(strides, arr),
            axes_shape(shape, insertion_sorted_from(rank, arr, i)),
            axes_strides(strides, insertion_sorted_from(rank, arr, i)),
            f,
        ),
        forall|k: int|
            0 <= k < insertion_sorted_from(rank, arr, i).len() ==> #[trigger] insertion_sorted_from(
                rank,
                arr,
                i,
            )[k] < shape.len(),
        forall|k: int|
            0 <= k < insertion_sorted_from(rank, arr, i).len() ==> arr.contains(
                #[trigger] insertion_sorted_from(rank, arr, i)[k],
            ),
    decreases arr.len() - i,
{
    let sh = axes_shape(shape, arr);
    let st = axes_strides(strides, arr);
    assert(well_shaped(sh, st));
    if i >= arr.len() {
        lemma_walks_same_refl(sh, st);
        |u: Seq<int>| u
    } else {
        let q = insertion_index(rank, arr, i, i - 1, i);
        lemma_insertion_index_bounds(rank, arr, i, i - 1, i);
        let next = moved(arr, i, q);
        lemma_walks_same_move(sh, st, i, q);
        assert(axes_shape(shape, next) =~= moved(sh, i, q));
        assert(axes_strides(strides, next) =~= moved_strides(st, i, q)) by {
            assert forall|o: int| 0 <= o < st.len() implies axes_strides(strides, next)[o]
                =~= moved_strides(st, i, q)[o] by {}
        }
        assert forall|k: int| 0 <= k < next.len() implies #[trigger] next[k] < shape.len()
            && arr.contains(next[k]) by {
            if k < q {
                assert(next[k] == arr[k]);
            } else if k == q {
                assert(next[k] == arr[i]);
            } else if k <= i {
                assert(next[k] == arr[k - 1]);
            } else {
                assert(next[k] == arr[k]);
            }
        }
        let g = lemma_sorted_axes_walk_same(shape, strides, rank, next, i + 1);
        assert forall|k: int| 0 <= k < insertion_sorted_from(rank, next, i + 1).len() implies arr.contains(
            #[trigger] insertion_sorted_from(rank, next, i + 1)[k],
        ) by {
            let x = insertion_sorted_from(rank, next, i + 1)[k];
            assert(next.contains(x));
            let j = choose|j: int| 0 <= j < next.len() && next[j] == x;
            assert(arr.contains(next[j]));
        }
        let m = |u: Seq<int>| moved(u, q, i);
        lemma_walks_same_trans(
            sh,
            st,
            axes_shape(shape, next),
            axes_strides(strides, next),
            axes_shape(shape, insertion_sorted_from(rank, next, i + 1)),
            axes_strides(strides, insertion_sorted_from(rank, next, i + 1)),
            m,
            g,
        );
        |u: Seq<int>| m(g(u))
    }
}

// ---------------------------------------------------------------------------
// Ranking two axes by the operands' strides
// ---------------------------------------------------------------------------

/// How axis `d1` ranks against axis `d2`, from operand `o` on: the first operand that takes part
/// and strides differently along the two axes decides (the larger stride goes outside). Only the
/// operands marked in `affects` take part, an operand that does not move along one of the axes
/// (stride 0) has no say, equal strides everywhere rank `Equal`, and a pair no operand had a say
/// on is left unranked.
pub open spec fn rank_from(
    strides: Seq<Seq<int>>,
    affects: Seq<bool>,
    d1: int,
    d2: int,
    o: int,
    compared: bool,
) -> Option<AxisRank>
    decreases strides.len() - o,
{
    if o < 0 || o >= strides.len() {
        if compared {
            Some(AxisRank::Equal)
        } else {
            None
        }
    } else if !affects[o] || strides[o][d1] == 0 || strides[o][d2] == 0 {
        rank_from(strides, affects, d1, d2, o + 1, compared)
    } else if strides[o][d1] < strides[o][d2] {
        Some(AxisRank::Greater)
    } else if strides[o][d1] > strides[o][d2] {
        Some(AxisRank::Less)
    } else {
        rank_from(strides, affects, d1, d2, o + 1, true)
    }
}

/// How axis `d1` ranks against axis `d2` of `ndim` axes (unranked when one is not an axis).
pub open spec fn axis_rank(
    strides: Seq<Seq<int>>,
    affects: Seq<bool>,
    ndim: int,
    d1: int,
    d2: int,
) -> Option<AxisRank> {
    if 0 <= d1 < ndim && 0 <= d2 < ndim {
        rank_from(strides, affects, d1, d2, 0, false)
    } else {
        None
    }
}

/// How axis `d1` ranks against axis `d2`, as [`axis_rank`] states.
fn rank_axes(
    strides: &[&[usize]],
    affects: &[bool],
    ndim: usize,
    d1: usize,
    d2: usize,
) -> (r: Option<AxisRank>)
    requires
        affects@.len() == strides@.len(),
        forall|o: int| 0 <= o < strides@.len() ==> #[trigger] strides@[o]@.len() == ndim,
    ensures
        r == axis_rank(
            operand_strides(strides@),
            affects@,
            ndim as int,
            d1 as int,
            d2 as int,
        ),
{
    let ghost st = operand_strides(strides@);
    if d1 >= ndim || d2 >= ndim {
        return None;
    }
    let n = strides.len();
    let mut o: usize = 0;
    let mut compared = false;
    while o < n
        invariant
            o <= n,
            n == strides@.len(),
            affects@.len() == n,
            st == operand_strides(strides@),
            d1 < ndim,
            d2 < ndim,
            forall|o: int| 0 <= o < strides@.len() ==> #[trigger] strides@[o]@.len() == ndim,
            rank_from(st, affects@, d1 as int, d2 as int, 0, false) == rank_from(
                st,
                affects@,
                d1 as int,
                d2 as int,
                o as int,
                compared,
            ),
        decreases n - o,
    {
        let s = strides[o];
        assert(st[o as int][d1 as int] == s[d1 as int] && st[o as int][d2 as int] == s[d2 as int]);
        if affects[o] && s[d1] != 0 && s[d2] != 0 {
            if s[d1] < s[d2] {
                return Some(AxisRank::Greater);
            } else if s[d1] > s[d2] {
                return Some(AxisRank::Less);
            }
            compared = true;
        }
        o += 1;
    }
    if compared {
        Some(AxisRank::Equal)
    } else {
        None
    }
}

// ---------------------------------------------------------------------------
// Dropping, ordering and coalescing the axes
// ---------------------------------------------------------------------------

/// The axes among the first `d` longer than 1, in order.
pub open spec fn long_axes(shape: Seq<int>, d: int) -> Seq<usize>
    decreases d,
{
    if d <= 0 {
        Seq::empty()
    } else if shape[d - 1] > 1 {
        long_axes(shape, d - 1).push((d - 1) as usize)
    } else {
        long_axes(shape, d - 1)
    }
}

/// For every operand, the stride along axis `outer` is the stride along axis `inner` times that
/// axis' length: walking `inner` to its end lands where `outer` steps.
pub open spec fn chained(shape: Seq<int>, strides: Seq<Seq<int>>, outer: int, inner: int) -> bool {
    forall|o: int| 0 <= o < strides.len() ==> #[trigger] strides[o][outer] == strides[o][inner] * shape[inner]
}

/// The groups the first `t` ordered axes coalesce into: each group's length (the product of its
/// axes' lengths) and its innermost axis. An axis joins the group before it when the group's
/// innermost axis is chained to it, else it starts a group.
pub open spec fn coalesced(shape: Seq<int>, strides: Seq<Seq<int>>, axes: Seq<usize>, t: int) -> (
    Seq<int>,
    Seq<usize>,
)
    decreases t,
{
    if t <= 0 {
        (Seq::empty(), Seq::empty())
    } else {
        let (lens, inners) = coalesced(shape, strides, axes, t - 1);
        let d = axes[t - 1] as int;
        let m = lens.len() as int;
        if m > 0 && chained(shape, strides, inners[m - 1] as int, d) {
            (lens.update(m - 1, lens[m - 1] * shape[d]), inners.update(m - 1, d as usize))
        } else {
            (lens.push(shape[d]), inners.push(d as usize))
        }
    }
}

/// The axes the walk visits, outermost first: the axes longer than 1, sorted by rank.
pub open spec fn ordered_axes(
    shape: Seq<int>,
    strides: Seq<Seq<int>>,
    affects: Seq<bool>,
) -> Seq<usize> {
    insertion_sorted_from(
        |d1: usize, d2: usize|
            axis_rank(strides, affects, shape.len() as int, d1 as int, d2 as int),
        long_axes(shape, shape.len() as int),
        1,
    )
}

/// The shape the walk uses: `[0]` for an empty region, `[1]` for a single element, else the
/// lengths of the coalesced groups of the ordered axes.
pub open spec fn walk_shape(
    shape: Seq<int>,
    strides: Seq<Seq<int>>,
    affects: Seq<bool>,
) -> Seq<int> {
    let axes = ordered_axes(shape, strides, affects);
    if exists|d: int| 0 <= d < shape.len() && shape[d] == 0 {
        seq![0int]
    } else if axes.len() == 0 {
        seq![1int]
    } else {
        coalesced(shape, strides, axes, axes.len() as int).0
    }
}

/// The groups of axes longer than 1 each have a length of at least 2, and there is one group at
/// least when there is one axis at least.
proof fn lemma_coalesced_long(shape: Seq<int>, strides: Seq<Seq<int>>, axes: Seq<usize>, t: int)
    requires
        0 <= t <= axes.len(),
        forall|k: int| 0 <= k < axes.len() ==> #[trigger] shape[axes[k] as int] > 1,
    ensures
        coalesced(shape, strides, axes, t).0.len() == coalesced(shape, strides, axes, t).1.len(),
        t > 0 ==> coalesced(shape, strides, axes, t).0.len() >= 1,
        forall|i: int|
            0 <= i < coalesced(shape, strides, axes, t).0.len() ==> #[trigger] coalesced(
                shape,
                strides,
                axes,
                t,
            ).0[i] >= 2,
    decreases t,
{
    if t > 0 {
        lemma_coalesced_long(shape, strides, axes, t - 1);
        let (lens, inners) = coalesced(shape, strides, axes, t - 1);
        let d = axes[t - 1] as int;
        assert(shape[d] > 1);
        let m = lens.len() as int;
        if m > 0 && chained(shape, strides, inners[m - 1] as int, d) {
            assert(lens[m - 1] * shape[d] >= 2) by (nonlinear_arith)
                requires
                    lens[m - 1] >= 2,
                    shape[d] > 1,
            ;
        }
    }
}

/// The inner run of a walk is empty exactly when the region is: some axis has length 0.
pub proof fn lemma_inner_run_empty_iff(shape: Seq<int>, strides: Seq<Seq<int>>, affects: Seq<bool>)
    requires
        shape.len() <= usize::MAX,
        forall|d: int| 0 <= d < shape.len() ==> #[trigger] shape[d] >= 0,
        well_shaped(shape, strides),
    ensures
        walk_shape(shape, strides, affects).len() >= 1,
        walk_shape(shape, strides, affects).last() == 0 <==> exists|d: int|
            0 <= d < shape.len() && #[trigger] shape[d] == 0,
{
    let axes = ordered_axes(shape, strides, affects);
    if !(exists|d: int| 0 <= d < shape.len() && #[trigger] shape[d] == 0) && axes.len() > 0 {
        let rank = |d1: usize, d2: usize|
            axis_rank(strides, affects, shape.len() as int, d1 as int, d2 as int);
        let la = long_axes(shape, shape.len() as int);
        lemma_long_axes(shape, shape.len() as int);
        let f = lemma_sorted_axes_walk_same(shape, strides, rank, la, 1);
        assert(axes == insertion_sorted_from(rank, la, 1));
        assert forall|k: int| 0 <= k < axes.len() implies #[trigger] shape[axes[k] as int] > 1 by {
            assert(la.contains(axes[k]));
            let j = choose|j: int| 0 <= j < la.len() && la[j] == axes[k];
            assert(shape[la[j] as int] > 1);
        }
        lemma_coalesced_long(shape, strides, axes, axes.len() as int);
        let lens = coalesced(shape, strides, axes, axes.len() as int).0;
        assert(lens[lens.len() - 1] >= 2);
    }
}

/// Each operand's strides along the walk's axes: its element size for an empty region or a single
/// element, else its stride along each group's innermost axis.
pub open spec fn walk_strides(
    shape: Seq<int>,
    strides: Seq<Seq<int>>,
    sizes: Seq<int>,
    affects: Seq<bool>,
) -> Seq<Seq<int>> {
    let axes = ordered_axes(shape, strides, affects);
    let inners = coalesced(shape, strides, axes, axes.len() as int).1;
    Seq::new(
        strides.len(),
        |o: int|
            if (exists|d: int| 0 <= d < shape.len() && shape[d] == 0) || axes.len() == 0 {
                seq![sizes[o]]
            } else {
                Seq::new(inners.len(), |g: int| strides[o][inners[g] as int])
            },
    )
}

/// Whether every operand's stride along `outer` is its stride along `inner` times `len`.
fn chains(strides: &[&[usize]], ndim: usize, outer: usize, inner: usize, len: usize) -> (r: bool)
    requires
        outer < ndim,
        inner < ndim,
        forall|o: int| 0 <= o < strides@.len() ==> #[trigger] strides@[o]@.len() == ndim,
    ensures
        r == forall|o: int|
            0 <= o < strides@.len() ==> #[trigger] operand_strides(strides@)[o][outer as int]
                == operand_strides(strides@)[o][inner as int] * len,
{
    let ghost st = operand_strides(strides@);
    let n = strides.len();
    let mut o: usize = 0;
    while o < n
        invariant
            o <= n,
            n == strides@.len(),
            st == operand_strides(strides@),
            outer < ndim,
            inner < ndim,
            forall|o: int| 0 <= o < strides@.len() ==> #[trigger] strides@[o]@.len() == ndim,
            forall|k: int| 0 <= k < o ==> #[trigger] st[k][outer as int] == st[k][inner as int] * len,
        decreases n - o,
    {
        let s = strides[o];
        assert(st[o as int][outer as int] == s[outer as int] && st[o as int][inner as int]
            == s[inner as int]);
        match s[inner].checked_mul(len) {
            Some(x) => {
                if s[outer] != x {
                    return false;
                }
            },
            None => {
                return false;
            },
        }
        o += 1;
    }
    true
}

proof fn lemma_long_axes(shape: Seq<int>, d: int)
    requires
        0 <= d <= shape.len(),
        shape.len() <= usize::MAX,
    ensures
        forall|k: int| 0 <= k < long_axes(shape, d).len() ==> #[trigger] long_axes(shape, d)[k] < d,
        forall|k: int|
            0 <= k < long_axes(shape, d).len() ==> shape[#[trigger] long_axes(shape, d)[k] as int] > 1,
    decreases d,
{
    if d > 0 {
        lemma_long_axes(shape, d - 1);
        let prev = long_axes(shape, d - 1);
        let cur = long_axes(shape, d);
        assert forall|k: int| 0 <= k < cur.len() implies #[trigger] cur[k] < d && shape[cur[k] as int]
            > 1 by {
            if k < prev.len() {
                assert(cur[k] == prev[k]);
            } else {
                assert(cur[k] == (d - 1) as usize);
            }
        }
    }
}

/// The walk's layout for a region of `shape` whose operands have `strides`: the axes longer than 1,
/// ordered by rank and coalesced where they chain, as [`walk_shape`] and [`walk_strides`] state;
/// and the map of each of its indices to the region's index at the same offsets.
fn walk_layout(
    shape: &[usize],
    strides: &[&[usize]],
    sizes: &[usize],
    affects: &[bool],
) -> (r: (Vec<usize>, Vec<Vec<usize>>, Ghost<spec_fn(Seq<int>) -> Seq<int>>))
    requires
        sizes@.len() == strides@.len(),
        affects@.len() == strides@.len(),
        forall|o: int| 0 <= o < strides@.len() ==> #[trigger] strides@[o]@.len() == shape@.len(),
        seq_prod(usize_ints(shape@)) <= usize::MAX,
    ensures
        usize_ints(r.0@) == walk_shape(
            usize_ints(shape@),
            operand_strides(strides@),
            affects@,
        ),
        r.0@.len() >= 1,
        r.1@.len() == strides@.len(),
        forall|o: int| 0 <= o < strides@.len() ==> #[trigger] r.1@[o]@.len() == r.0@.len(),
        forall|o: int|
            0 <= o < strides@.len() ==> usize_ints(#[trigger] r.1@[o]@) == walk_strides(
                usize_ints(shape@),
                operand_strides(strides@),
                usize_ints(sizes@),
                affects@,
            )[o],
        walks_same(
            usize_ints(shape@),
            operand_strides(strides@),
            usize_ints(r.0@),
            Seq::new(strides@.len(), |o: int| usize_ints(r.1@[o]@)),
            r.2@,
        ),
{
    let n = shape.len();
    let nops = strides.len();
    let ghost sh = usize_ints(shape@);
    let ghost st = operand_strides(strides@);
    let ghost sz = usize_ints(sizes@);
    let ghost mut f: spec_fn(Seq<int>) -> Seq<int> = |u: Seq<int>| u;
    proof {
        lemma_walks_same_refl(sh, st);
        assert(axes_shape(sh, Seq::<usize>::empty() + axis_range(0, n as int)) =~= sh);
        assert(axes_strides(st, Seq::<usize>::empty() + axis_range(0, n as int)) =~= st) by {
            assert forall|o: int| 0 <= o < st.len() implies axes_strides(
                st,
                Seq::<usize>::empty() + axis_range(0, n as int),
            )[o] =~= st[o] by {}
        }
    }

    // (1) Keep the axes longer than 1; stop at an empty axis.
    let mut perm: Vec<usize> = Vec::new();
    let mut d: usize = 0;
    while d < n
        invariant
            d <= n,
            n == shape@.len(),
            nops == strides@.len(),
            sh == usize_ints(shape@),
            st == operand_strides(strides@),
            sz == usize_ints(sizes@),
            sizes@.len() == nops,
            forall|o: int| 0 <= o < strides@.len() ==> #[trigger] strides@[o]@.len() == n,
            well_shaped(sh, st),
            perm@ == long_axes(sh, d as int),
            forall|e: int| 0 <= e < d ==> sh[e] != 0,
            walks_same(
                sh,
                st,
                axes_shape(sh, perm@ + axis_range(d as int, n as int)),
                axes_strides(st, perm@ + axis_range(d as int, n as int)),
                f,
            ),
        decreases n - d,
    {
        if shape[d] == 0 {
            let mut out_strides: Vec<Vec<usize>> = Vec::new();
            let mut o: usize = 0;
            while o < nops
                invariant
                    o <= nops,
                    nops == sizes@.len(),
                    out_strides@.len() == o,
                    forall|k: int| 0 <= k < o ==> #[trigger] out_strides@[k]@ == seq![sizes@[k]],
                decreases nops - o,
            {
                out_strides.push(vec![sizes[o]]);
                o += 1;
            }
            let mut zero: Vec<usize> = Vec::new();
            zero.push(0);
            let ghost ws = Seq::new(nops as nat, |o: int| usize_ints(out_strides@[o]@));
            proof {
                assert(sh[d as int] == 0);
                lemma_seq_prod_zero(sh, d as int);
                assert(usize_ints(zero@) =~= seq![0int]);
                lemma_walks_same_empty(sh, st, seq![0int], ws, f, d as int, 0);
                assert forall|o: int| 0 <= o < nops implies usize_ints(#[trigger] out_strides@[o]@)
                    == walk_strides(sh, st, sz, affects@)[o] by {
                    assert(usize_ints(out_strides@[o]@) =~= seq![sz[o]]);
                }
            }
            return (zero, out_strides, Ghost(f));
        }
        let ghost axes = perm@ + axis_range(d as int, n as int);
        if shape[d] > 1 {
            perm.push(d);
            proof {
                assert(perm@ + axis_range(d as int + 1, n as int) =~= axes);
            }
        } else {
            proof {
                let p = perm@.len() as int;
                let lsh = axes_shape(sh, axes);
                let lst = axes_strides(st, axes);
                assert(well_shaped(lsh, lst));
                assert(lsh[p] == sh[d as int]);
                lemma_walks_same_drop(lsh, lst, p);
                let next = perm@ + axis_range(d as int + 1, n as int);
                assert(next =~= axes.remove(p));
                assert(axes_shape(sh, next) =~= lsh.remove(p));
                assert(axes_strides(st, next) =~= Seq::new(lst.len(), |o: int| lst[o].remove(p))) by {
                    assert forall|o: int| 0 <= o < lst.len() implies axes_strides(st, next)[o]
                        =~= lst[o].remove(p) by {}
                }
                let g = |u: Seq<int>| u.insert(p, 0);
                lemma_walks_same_trans(
                    sh,
                    st,
                    lsh,
                    lst,
                    axes_shape(sh, next),
                    axes_strides(st, next),
                    f,
                    g,
                );
                f = |u: Seq<int>| f(g(u));
            }
        }
        d += 1;
    }
    proof {
        assert(perm@ + axis_range(n as int, n as int) =~= perm@);
        lemma_long_axes(sh, n as int);
    }

    // (2) Order the axes.
    let ghost before = perm@;
    let ghost rank = |d1: usize, d2: usize|
        axis_rank(st, affects@, n as int, d1 as int, d2 as int);
    let compare = (|d1: usize, d2: usize| -> (r: Option<AxisRank>)
        requires
            affects@.len() == strides@.len(),
            forall|o: int| 0 <= o < strides@.len() ==> #[trigger] strides@[o]@.len() == n,
        ensures
            r == axis_rank(
                operand_strides(strides@),
                affects@,
                n as int,
                d1 as int,
                d2 as int,
            ),
        { rank_axes(strides, affects, n, d1, d2) });
    axes_sort_by_ranked(&mut perm, compare, Ghost(rank));
    proof {
        let g = lemma_sorted_axes_walk_same(sh, st, rank, before, 1);
        lemma_walks_same_trans(
            sh,
            st,
            axes_shape(sh, before),
            axes_strides(st, before),
            axes_shape(sh, perm@),
            axes_strides(st, perm@),
            f,
            g,
        );
        f = |u: Seq<int>| f(g(u));
        assert(perm@ == ordered_axes(sh, st, affects@));
        assert forall|k: int| 0 <= k < perm@.len() implies sh[#[trigger] perm@[k] as int] > 1 by {
            assert(before.contains(perm@[k]));
            let j = choose|j: int| 0 <= j < before.len() && before[j] == perm@[k];
            assert(sh[before[j] as int] > 1);
        }
    }

    // (3) Coalesce the chained axes into groups.
    let p = perm.len();
    if p == 0 {
        let mut out_strides: Vec<Vec<usize>> = Vec::new();
        let mut o: usize = 0;
        while o < nops
            invariant
                o <= nops,
                nops == sizes@.len(),
                out_strides@.len() == o,
                forall|k: int| 0 <= k < o ==> #[trigger] out_strides@[k]@ == seq![sizes@[k]],
            decreases nops - o,
        {
            out_strides.push(vec![sizes[o]]);
            o += 1;
        }
        let mut one: Vec<usize> = Vec::new();
        one.push(1);
        let ghost ws = Seq::new(nops as nat, |o: int| usize_ints(out_strides@[o]@));
        proof {
            let lst = axes_strides(st, perm@);
            assert(axes_shape(sh, perm@) =~= Seq::<int>::empty());
            assert forall|o: int| 0 <= o < lst.len() implies #[trigger] lst[o].len() == 0 by {}
            assert forall|o: int| 0 <= o < ws.len() implies #[trigger] ws[o].len() == 1 by {}
            lemma_walks_same_unit(lst, ws);
            let g = |u: Seq<int>| Seq::<int>::empty();
            lemma_walks_same_trans(sh, st, Seq::<int>::empty(), lst, seq![1int], ws, f, g);
            f = |u: Seq<int>| f(g(u));
            assert(usize_ints(one@) =~= seq![1int]);
            assert forall|o: int| 0 <= o < nops implies usize_ints(#[trigger] out_strides@[o]@)
                == walk_strides(sh, st, sz, affects@)[o] by {
                assert(usize_ints(out_strides@[o]@) =~= seq![sz[o]]);
            }
        }
        return (one, out_strides, Ghost(f));
    }
    let mut glen: Vec<usize> = Vec::new();
    let mut ginner: Vec<usize> = Vec::new();
    let mut t: usize = 0;
    proof {
        assert(usize_ints(glen@) + axes_shape(sh, perm@.skip(0)) =~= axes_shape(sh, perm@));
        assert(Seq::new(
            nops as nat,
            |o: int|
                Seq::new(glen@.len(), |g: int| st[o][ginner@[g] as int]) + axes_strides(
                    st,
                    perm@.skip(0),
                )[o],
        ) =~= axes_strides(st, perm@)) by {
            assert forall|o: int| 0 <= o < nops implies (Seq::new(
                glen@.len(),
                |g: int| st[o][ginner@[g] as int],
            ) + axes_strides(st, perm@.skip(0))[o]) =~= axes_strides(st, perm@)[o] by {}
        }
        assert(usize_ints(glen@) =~= Seq::<int>::empty());
        lemma_walks_same_refl(sh, st);
    }
    while t < p
        invariant
            t <= p,
            p == perm@.len(),
            n == shape@.len(),
            nops == strides@.len(),
            sh == usize_ints(shape@),
            st == operand_strides(strides@),
            forall|o: int| 0 <= o < strides@.len() ==> #[trigger] strides@[o]@.len() == n,
            well_shaped(sh, st),
            forall|k: int| 0 <= k < p ==> #[trigger] perm@[k] < n,
            forall|k: int| 0 <= k < p ==> sh[#[trigger] perm@[k] as int] > 1,
            seq_prod(sh) <= usize::MAX,
            glen@.len() == ginner@.len(),
            t > 0 ==> glen@.len() >= 1,
            forall|g: int| 0 <= g < glen@.len() ==> #[trigger] glen@[g] >= 1,
            forall|g: int| 0 <= g < ginner@.len() ==> #[trigger] ginner@[g] < n,
            (usize_ints(glen@), ginner@) == coalesced(sh, st, perm@, t as int),
            walks_same(
                sh,
                st,
                usize_ints(glen@) + axes_shape(sh, perm@.skip(t as int)),
                Seq::new(
                    nops as nat,
                    |o: int|
                        Seq::new(glen@.len(), |g: int| st[o][ginner@[g] as int]) + axes_strides(
                            st,
                            perm@.skip(t as int),
                        )[o],
                ),
                f,
            ),
        decreases p - t,
    {
        let d = perm[t];
        let m = glen.len();
        let ghost cur_shape = usize_ints(glen@) + axes_shape(sh, perm@.skip(t as int));
        let ghost cur_strides = Seq::new(
            nops as nat,
            |o: int|
                Seq::new(glen@.len(), |g: int| st[o][ginner@[g] as int]) + axes_strides(
                    st,
                    perm@.skip(t as int),
                )[o],
        );
        proof {
            assert(cur_shape[m as int] == sh[d as int]);
            assert forall|o: int| 0 <= o < nops implies #[trigger] cur_strides[o].len()
                == cur_shape.len() by {}
        }
        let merge = m > 0 && chains(strides, n, ginner[m - 1], d, shape[d]);
        if merge {
            proof {
                assert forall|k: int| 0 <= k < cur_shape.len() implies #[trigger] cur_shape[k] >= 1 by {
                    if k >= m {
                        assert(cur_shape[k] == sh[perm@[t + k - m] as int]);
                    }
                }
                lemma_seq_prod_pair(cur_shape, m as int - 1);
                assert(cur_shape[m as int - 1] == glen@[m as int - 1]);
                assert(mergeable(cur_shape, cur_strides, m as int - 1)) by {
                    assert forall|o: int| 0 <= o < cur_strides.len() implies #[trigger] cur_strides[o][m
                        as int - 1] == cur_strides[o][m as int] * cur_shape[m as int] by {
                        assert(cur_strides[o][m as int - 1] == st[o][ginner@[m as int - 1] as int]);
                        assert(cur_strides[o][m as int] == st[o][d as int]);
                    }
                }
                lemma_walks_same_merge(cur_shape, cur_strides, m as int - 1);
                let g = |u: Seq<int>| split_index(u, m as int - 1, cur_shape[m as int]);
                lemma_walks_same_trans(
                    sh,
                    st,
                    cur_shape,
                    cur_strides,
                    merged_shape(cur_shape, m as int - 1),
                    merged_strides(cur_strides, m as int - 1),
                    f,
                    g,
                );
                f = |u: Seq<int>| f(g(u));
            }
            assert(glen@[m - 1] * shape@[d as int] >= 1) by (nonlinear_arith)
                requires
                    glen@[m - 1] >= 1,
                    shape@[d as int] >= 1,
            ;
            let merged = glen[m - 1] * shape[d];
            glen.set(m - 1, merged);
            ginner.set(m - 1, d);
            proof {
                let ns = usize_ints(glen@) + axes_shape(sh, perm@.skip(t as int + 1));
                assert(ns =~= merged_shape(cur_shape, m as int - 1));
                let nst = Seq::new(
                    nops as nat,
                    |o: int|
                        Seq::new(glen@.len(), |g: int| st[o][ginner@[g] as int]) + axes_strides(
                            st,
                            perm@.skip(t as int + 1),
                        )[o],
                );
                assert(nst =~= merged_strides(cur_strides, m as int - 1)) by {
                    assert forall|o: int| 0 <= o < nops implies nst[o] =~= merged_strides(
                        cur_strides,
                        m as int - 1,
                    )[o] by {}
                }
            }
        } else {
            glen.push(shape[d]);
            ginner.push(d);
            proof {
                let ns = usize_ints(glen@) + axes_shape(sh, perm@.skip(t as int + 1));
                assert(ns =~= cur_shape);
                let nst = Seq::new(
                    nops as nat,
                    |o: int|
                        Seq::new(glen@.len(), |g: int| st[o][ginner@[g] as int]) + axes_strides(
                            st,
                            perm@.skip(t as int + 1),
                        )[o],
                );
                assert(nst =~= cur_strides) by {
                    assert forall|o: int| 0 <= o < nops implies nst[o] =~= cur_strides[o] by {}
                }
            }
        }
        t += 1;
    }
    let mut out_strides: Vec<Vec<usize>> = Vec::new();
    let mut o: usize = 0;
    while o < nops
        invariant
            o <= nops,
            nops == strides@.len(),
            forall|o: int| 0 <= o < strides@.len() ==> #[trigger] strides@[o]@.len() == n,
            forall|g: int| 0 <= g < ginner@.len() ==> #[trigger] ginner@[g] < n,
            st == operand_strides(strides@),
            out_strides@.len() == o,
            forall|k: int| 0 <= k < o ==> #[trigger] out_strides@[k]@.len() == ginner@.len(),
            forall|k: int|
                0 <= k < o ==> usize_ints(#[trigger] out_strides@[k]@) == Seq::new(
                    ginner@.len(),
                    |g: int| st[k][ginner@[g] as int],
                ),
        decreases nops - o,
    {
        let s = strides[o];
        let mut row: Vec<usize> = Vec::new();
        let mut g: usize = 0;
        while g < ginner.len()
            invariant
                g <= ginner@.len(),
                s@.len() == n,
                forall|g: int| 0 <= g < ginner@.len() ==> #[trigger] ginner@[g] < n,
                row@.len() == g,
                forall|k: int| 0 <= k < g ==> #[trigger] row@[k] == s@[ginner@[k] as int],
            decreases ginner@.len() - g,
        {
            row.push(s[ginner[g]]);
            g += 1;
        }
        proof {
            assert(usize_ints(row@) =~= Seq::new(ginner@.len(), |g: int| st[o as int][ginner@[g] as int]));
        }
        out_strides.push(row);
        o += 1;
    }
    proof {
        assert(perm@.skip(p as int) =~= Seq::<usize>::empty());
        assert(usize_ints(glen@) + axes_shape(sh, perm@.skip(p as int)) =~= usize_ints(glen@));
        assert(Seq::new(
            nops as nat,
            |o: int|
                Seq::new(glen@.len(), |g: int| st[o][ginner@[g] as int]) + axes_strides(
                    st,
                    perm@.skip(p as int),
                )[o],
        ) =~= Seq::new(strides@.len(), |o: int| usize_ints(out_strides@[o]@))) by {
            assert forall|o: int| 0 <= o < nops implies (Seq::new(
                glen@.len(),
                |g: int| st[o][ginner@[g] as int],
            ) + axes_strides(st, perm@.skip(p as int))[o]) =~= usize_ints(out_strides@[o]@) by {}
        }
    }
    (glen, out_strides, Ghost(f))
}

// ---------------------------------------------------------------------------
// The walk
// ---------------------------------------------------------------------------

/// Every stride is a multiple of `alignment` (only stride 0 when `alignment` is 0).
pub open spec fn strides_aligned(strides: Seq<int>, alignment: int) -> bool {
    forall|g: int|
        0 <= g < strides.len() ==> if alignment == 0 {
            #[trigger] strides[g] == 0
        } else {
            #[trigger] strides[g] % alignment == 0
        }
}

/// The offset of index `u` under strides `s`, taken modulo `usize`'s range.
fn dot_mod(u: &Vec<u64>, s: &Vec<usize>) -> (r: usize)
    requires
        u@.len() == s@.len(),
        forall|d: int| 0 <= d < u@.len() ==> #[trigger] u@[d] <= usize::MAX,
    ensures
        r == dot(as_ints(u@), usize_ints(s@)) % (usize::MAX as int + 1),
{
    let ghost m = usize::MAX as int + 1;
    let ghost t = terms(as_ints(u@), usize_ints(s@));
    let n = u.len();
    let mut acc: usize = 0;
    let mut d: usize = 0;
    while d < n
        invariant
            d <= n,
            n == u@.len(),
            n == s@.len(),
            m == usize::MAX as int + 1,
            t == terms(as_ints(u@), usize_ints(s@)),
            forall|d: int| 0 <= d < u@.len() ==> #[trigger] u@[d] <= usize::MAX,
            acc == seq_sum(t.take(d as int)) % m,
        decreases n - d,
    {
        let x = u[d] as usize;
        let term = x.wrapping_mul(s[d]);
        proof {
            assert(t.take(d as int + 1).drop_last() =~= t.take(d as int));
            assert(t[d as int] == x * s[d as int]);
            vstd::arithmetic::div_mod::lemma_add_mod_noop(seq_sum(t.take(d as int)), t[d as int], m);
            vstd::arithmetic::div_mod::lemma_mod_bound(x * s[d as int], m);
        }
        assert(term == (x * s[d as int]) % m) by {
            assert(term as int == (x as int * s[d as int] as int) % m);
        }
        let next = acc.wrapping_add(term);
        assert(next == (acc + term) % m);
        proof {
            vstd::arithmetic::div_mod::lemma_mod_twice(seq_sum(t.take(d as int)), m);
            vstd::arithmetic::div_mod::lemma_mod_twice(t[d as int], m);
            vstd::arithmetic::div_mod::lemma_add_mod_noop(
                seq_sum(t.take(d as int)) % m,
                t[d as int] % m,
                m,
            );
        }
        acc = next;
        d += 1;
    }
    proof {
        assert(t.take(n as int) =~= t);
    }
    acc
}

/// The run starts of a walk over `shape` with `strides`: for every index of the outer axes (all
/// but the last), in row-major order, each operand's offset (modulo `usize`'s range).
fn walk_runs(shape: &Vec<usize>, strides: &Vec<Vec<usize>>) -> (r: Vec<Vec<usize>>)
    requires
        shape@.len() >= 1,
        forall|o: int| 0 <= o < strides@.len() ==> #[trigger] strides@[o]@.len() == shape@.len(),
    ensures
        r@.len() == volume(outer_extent(shape@)),
        forall|k: int| 0 <= k < r@.len() ==> #[trigger] is_run(shape@, strides@, k, r@[k]@),
{
    let m = shape.len() - 1;
    let nops = strides.len();
    let mut outer: Vec<u64> = Vec::new();
    let mut d: usize = 0;
    while d < m
        invariant
            d <= m,
            m == shape@.len() - 1,
            outer@.len() == d,
            forall|e: int| 0 <= e < d ==> #[trigger] outer@[e] == shape@[e] as u64,
        decreases m - d,
    {
        outer.push(shape[d] as u64);
        d += 1;
    }
    let mut outer_strides: Vec<Vec<usize>> = Vec::new();
    let mut o: usize = 0;
    while o < nops
        invariant
            o <= nops,
            nops == strides@.len(),
            m == shape@.len() - 1,
            forall|o: int| 0 <= o < strides@.len() ==> #[trigger] strides@[o]@.len() == shape@.len(),
            outer_strides@.len() == o,
            forall|k: int| 0 <= k < o ==> #[trigger] outer_strides@[k]@ == strides@[k]@.take(m as int),
        decreases nops - o,
    {
        let mut row: Vec<usize> = Vec::new();
        let mut e: usize = 0;
        while e < m
            invariant
                e <= m,
                o < nops,
                nops == strides@.len(),
                m == shape@.len() - 1,
                forall|o: int| 0 <= o < strides@.len() ==> #[trigger] strides@[o]@.len() == shape@.len(),
                row@ == strides@[o as int]@.take(e as int),
            decreases m - e,
        {
            row.push(strides[o][e]);
            proof {
                assert(row@ =~= strides@[o as int]@.take(e as int + 1));
            }
            e += 1;
        }
        outer_strides.push(row);
        o += 1;
    }
    proof {
        assert(outer@ =~= outer_extent(shape@));
    }
    let mut iter = IdxIter::new(outer);
    let mut runs: Vec<Vec<usize>> = Vec::new();
    let mut more = true;
    while more
        invariant
            iter.walk().wf(),
            iter.walk().begin() == crate::util::iter::nd::zeros(iter.walk().extent().len()),
            iter.walk().extent() == outer_extent(shape@),
            more ==> runs@.len() == iter.walk().position(),
            !more ==> runs@.len() == volume(outer_extent(shape@)),
            nops == strides@.len(),
            m == shape@.len() - 1,
            outer_strides@.len() == nops,
            forall|k: int| 0 <= k < nops ==> #[trigger] outer_strides@[k]@ == strides@[k]@.take(m as int),
            forall|o: int| 0 <= o < strides@.len() ==> #[trigger] strides@[o]@.len() == shape@.len(),
            forall|k: int| 0 <= k < runs@.len() ==> #[trigger] is_run(shape@, strides@, k, runs@[k]@),
        decreases (if more { volume(outer_extent(shape@)) - iter.walk().position() + 1 } else { 0 }),
    {
        let ghost pos = iter.walk().position();
        proof {
            lemma_walk_position_bound(iter.walk());
        }
        match iter.next() {
            None => {
                more = false;
            },
            Some(idx) => {
                let ghost v = as_ints(idx@);
                proof {
                    assert forall|d: int| 0 <= d < idx@.len() implies #[trigger] idx@[d] <= usize::MAX by {
                        assert(0 <= v[d] < outer_extent(shape@)[d]);
                    }
                }
                let mut offs: Vec<usize> = Vec::new();
                let mut o: usize = 0;
                while o < nops
                    invariant
                        o <= nops,
                        nops == strides@.len(),
                        outer_strides@.len() == nops,
                        m == shape@.len() - 1,
                        idx@.len() == m,
                        v == as_ints(idx@),
                        forall|d: int| 0 <= d < idx@.len() ==> #[trigger] idx@[d] <= usize::MAX,
                        forall|k: int| 0 <= k < nops ==> #[trigger] outer_strides@[k]@ == strides@[k]@.take(m as int),
                        forall|o: int| 0 <= o < strides@.len() ==> #[trigger] strides@[o]@.len() == shape@.len(),
                        offs@.len() == o,
                        forall|k: int|
                            0 <= k < o ==> #[trigger] offs@[k] == dot(
                                v,
                                usize_ints(strides@[k]@).take(shape@.len() - 1),
                            ) % (usize::MAX as int + 1),
                    decreases nops - o,
                {
                    let x = dot_mod(&idx, &outer_strides[o]);
                    proof {
                        assert(usize_ints(outer_strides@[o as int]@) =~= usize_ints(strides@[o as int]@).take(
                            shape@.len() - 1,
                        ));
                    }
                    offs.push(x);
                    o += 1;
                }
                proof {
                    assert(ravel(outer_extent(shape@), v) == pos);
                    assert(is_run(shape@, strides@, pos, offs@));
                }
                runs.push(offs);
            },
        }
    }
    runs
}

/// `run` holds, for every operand, the offset (modulo `usize`'s range) of the outer index whose
/// row-major rank is `k`: the start of the `k`-th run of the walk over `shape` with `strides`.
pub open spec fn is_run(shape: Seq<usize>, strides: Seq<Vec<usize>>, k: int, run: Seq<usize>) -> bool {
    exists|v: Seq<int>|
        #![trigger ravel(outer_extent(shape), v)]
        in_box(outer_extent(shape), v) && ravel(outer_extent(shape), v) == k && run.len()
            == strides.len() && forall|o: int|
            0 <= o < strides.len() ==> run[o] == dot(v, usize_ints(strides[o]@).take(shape.len() - 1))
                % (usize::MAX as int + 1)
}

/// The extent of the outer axes (all but the last) of a walk.
pub open spec fn outer_extent(shape: Seq<usize>) -> Seq<u64> {
    Seq::new((shape.len() - 1) as nat, |d: int| shape[d] as u64)
}

proof fn lemma_walk_position_bound(w: crate::util::iter::nd::NdIter<()>)
    requires
        w.wf(),
    ensures
        0 <= w.position() <= volume(w.extent()),
{
    w.lemma_wf();
}

// ---------------------------------------------------------------------------
// The iterators
// ---------------------------------------------------------------------------

/// The region has nothing to step over: it is empty (some axis of length 0) or a single element
/// (every axis of length 1).
pub open spec fn no_steps(shape: Seq<int>) -> bool {
    (exists|d: int| 0 <= d < shape.len() && #[trigger] shape[d] == 0) || (forall|d: int|
        0 <= d < shape.len() ==> #[trigger] shape[d] == 1)
}

/// The alignment flags of a walk with strides `strides` for operands of `layouts` (size,
/// alignment): per operand, true where the region has nothing to step over (`flat`), else
/// whether every stride is a multiple of its alignment.
pub open spec fn aligned_flags(flat: bool, strides: Seq<Seq<int>>, layouts: Seq<(usize, usize)>) -> Seq<
    bool,
> {
    Seq::new(strides.len(), |o: int| flat || strides_aligned(strides[o], layouts[o].1 as int))
}

/// Per operand, whether the innermost run is contiguous: true where the region has nothing to
/// step over (`flat`), else whether its stride is the element size.
pub open spec fn contiguous_flags(flat: bool, strides: Seq<Seq<int>>, layouts: Seq<(usize, usize)>) -> Seq<
    bool,
> {
    Seq::new(strides.len(), |o: int| flat || strides[o].last() == layouts[o].0 as int)
}

/// Whether the region `shape` has nothing to step over, as [`no_steps`] states.
fn region_has_no_steps(shape: &[usize]) -> (r: bool)
    ensures
        r == no_steps(usize_ints(shape@)),
{
    let ghost sh = usize_ints(shape@);
    let mut any_zero = false;
    let mut all_one = true;
    let mut d: usize = 0;
    while d < shape.len()
        invariant
            d <= shape@.len(),
            sh == usize_ints(shape@),
            any_zero <==> exists|e: int| 0 <= e < d && #[trigger] sh[e] == 0,
            all_one <==> forall|e: int| 0 <= e < d ==> #[trigger] sh[e] == 1,
        decreases shape@.len() - d,
    {
        assert(sh[d as int] == shape@[d as int] as int);
        if shape[d] == 0 {
            any_zero = true;
        }
        if shape[d] != 1 {
            all_one = false;
        }
        d += 1;
    }
    any_zero || all_one
}

/// The element sizes of `layouts`.
pub open spec fn layout_sizes(layouts: Seq<(usize, usize)>) -> Seq<int> {
    Seq::new(layouts.len(), |o: int| layouts[o].0 as int)
}

/// The per-operand flags computed from a walk's strides.
fn walk_flags(flat: bool, strides: &Vec<Vec<usize>>, layouts: &[(usize, usize)]) -> (r: (
    Vec<bool>,
    Vec<bool>,
))
    requires
        strides@.len() == layouts@.len(),
        forall|o: int| 0 <= o < strides@.len() ==> #[trigger] strides@[o]@.len() >= 1,
    ensures
        r.0@ == aligned_flags(flat, Seq::new(strides@.len(), |o: int| usize_ints(strides@[o]@)), layouts@),
        r.1@ == contiguous_flags(flat, Seq::new(strides@.len(), |o: int| usize_ints(strides@[o]@)), layouts@),
{
    let ghost ws = Seq::new(strides@.len(), |o: int| usize_ints(strides@[o]@));
    let n = strides.len();
    let mut aligned: Vec<bool> = Vec::new();
    let mut contiguous: Vec<bool> = Vec::new();
    let mut o: usize = 0;
    while o < n
        invariant
            o <= n,
            n == strides@.len(),
            n == layouts@.len(),
            ws == Seq::new(strides@.len(), |o: int| usize_ints(strides@[o]@)),
            forall|o: int| 0 <= o < strides@.len() ==> #[trigger] strides@[o]@.len() >= 1,
            aligned@.len() == o,
            contiguous@.len() == o,
            forall|k: int| 0 <= k < o ==> #[trigger] aligned@[k] == (flat || strides_aligned(ws[k], layouts@[k].1 as int)),
            forall|k: int| 0 <= k < o ==> #[trigger] contiguous@[k] == (flat || ws[k].last() == layouts@[k].0 as int),
        decreases n - o,
    {
        let s = &strides[o];
        let (size, alignment) = layouts[o];
        let mut all = true;
        let mut g: usize = 0;
        while g < s.len()
            invariant
                g <= s@.len(),
                o < n,
                n == strides@.len(),
                s@ == strides@[o as int]@,
                ws == Seq::new(strides@.len(), |o: int| usize_ints(strides@[o]@)),
                all <==> forall|e: int|
                    0 <= e < g ==> if alignment == 0 {
                        #[trigger] ws[o as int][e] == 0
                    } else {
                        #[trigger] ws[o as int][e] % alignment as int == 0
                    },
            decreases s@.len() - g,
        {
            let ok = if alignment == 0 { s[g] == 0 } else { s[g] % alignment == 0 };
            assert(ws[o as int][g as int] == s[g as int] as int);
            if !ok {
                all = false;
            }
            g += 1;
        }
        aligned.push(flat || all);
        contiguous.push(flat || s[s.len() - 1] == size);
        o += 1;
    }
    proof {
        assert(aligned@ =~= aligned_flags(flat, ws, layouts@));
        assert(contiguous@ =~= contiguous_flags(flat, ws, layouts@));
    }
    (aligned, contiguous)
}

/// A walk over every element of `N` identically shaped strided regions, described by their common
/// shape, each operand's strides and each operand's (size, alignment), all in the operand's own
/// unit. The axes longer than 1 are ordered (by descending stride, operand 0 deciding first) and
/// coalesced where they chain, as [`walk_shape`] and [`walk_strides`] state; the walk then runs
/// an inner 1-d loop of [`inner_len`](Self::inner_len) elements from every run start of
/// [`runs`](Self::runs). It visits exactly the region's elements, each once: see
/// [`source_index`](Self::source_index).
pub struct NdIterUnordered<const N: usize> {
    shape: Vec<usize>,
    strides: Vec<Vec<usize>>,
    is_aligned: Vec<bool>,
    is_contiguous: Vec<bool>,
    region_shape: Ghost<Seq<int>>,
    region_strides: Ghost<Seq<Seq<int>>>,
    source: Ghost<spec_fn(Seq<int>) -> Seq<int>>,
}

/// [`NdIterUnordered`] with the number of operands known only at run time. It walks exactly as
/// [`NdIterUnordered`] does on the same input, every operand taking part in ordering the axes.
pub struct NdIterUnorderedDyn {
    shape: Vec<usize>,
    strides: Vec<Vec<usize>>,
    is_aligned: Vec<bool>,
    is_contiguous: Vec<bool>,
    region_shape: Ghost<Seq<int>>,
    region_strides: Ghost<Seq<Seq<int>>>,
    source: Ghost<spec_fn(Seq<int>) -> Seq<int>>,
}

impl<const N: usize> NdIterUnordered<N> {
    /// The walk's shape, after ordering and coalescing (at least one axis).
    pub closed spec fn walk_shape_of(&self) -> Seq<int> {
        usize_ints(self.shape@)
    }

    /// The walk's shape, as stored.
    pub closed spec fn walk_lengths(&self) -> Seq<usize> {
        self.shape@
    }

    /// Every operand's strides along the walk's axes, as stored.
    pub closed spec fn walk_stride_rows(&self) -> Seq<Vec<usize>> {
        self.strides@
    }

    /// Every operand's strides along the walk's axes.
    pub closed spec fn walk_strides_of(&self) -> Seq<Seq<int>> {
        Seq::new(self.strides@.len(), |o: int| usize_ints(self.strides@[o]@))
    }

    /// The region's shape.
    pub closed spec fn region_shape(&self) -> Seq<int> {
        self.region_shape@
    }

    /// Every operand's strides in the region.
    pub closed spec fn region_strides(&self) -> Seq<Seq<int>> {
        self.region_strides@
    }

    /// The index of the region that the walk's index `u` visits.
    pub closed spec fn source_index(&self) -> spec_fn(Seq<int>) -> Seq<int> {
        self.source@
    }

    /// Per operand, whether every walk stride is a multiple of its alignment.
    pub closed spec fn aligned(&self) -> Seq<bool> {
        self.is_aligned@
    }

    /// Per operand, whether the inner run is contiguous.
    pub closed spec fn contiguous(&self) -> Seq<bool> {
        self.is_contiguous@
    }

    /// The iterator is internally consistent: every operand has a stride per walk axis, and the
    /// walk visits exactly the region's elements.
    pub closed spec fn wf(&self) -> bool {
        &&& self.shape@.len() >= 1
        &&& self.is_aligned@.len() == self.strides@.len()
        &&& self.is_contiguous@.len() == self.strides@.len()
        &&& forall|o: int| 0 <= o < self.strides@.len() ==> #[trigger] self.strides@[o]@.len()
            == self.shape@.len()
        &&& walks_same(
            self.region_shape@,
            self.region_strides@,
            usize_ints(self.shape@),
            Seq::new(self.strides@.len(), |o: int| usize_ints(self.strides@[o]@)),
            self.source@,
        )
    }

    /// Walking the walk's layout visits exactly the region's elements, each once.
    pub proof fn lemma_walks_region(&self)
        requires
            self.wf(),
        ensures
            walks_same(
                self.region_shape(),
                self.region_strides(),
                self.walk_shape_of(),
                self.walk_strides_of(),
                self.source_index(),
            ),
            self.walk_shape_of().len() >= 1,
            forall|o: int|
                0 <= o < self.walk_strides_of().len() ==> #[trigger] self.walk_strides_of()[o].len()
                    == self.walk_shape_of().len(),
    {
    }

    /// How the walk's layout is stored.
    pub proof fn lemma_walk_views(&self)
        ensures
            self.walk_shape_of() == usize_ints(self.walk_lengths()),
            self.walk_strides_of() == Seq::new(
                self.walk_stride_rows().len(),
                |o: int| usize_ints(self.walk_stride_rows()[o]@),
            ),
    {
    }

    /// The length of the inner run.
    pub fn inner_len(&self) -> (r: usize)
        requires
            self.wf(),
        ensures
            r == self.walk_shape_of().last(),
    {
        self.shape[self.shape.len() - 1]
    }

    /// Each operand's stride along the inner run.
    pub fn inner_strides(&self) -> (r: Vec<usize>)
        requires
            self.wf(),
        ensures
            r@.len() == self.walk_strides_of().len(),
            forall|o: int| 0 <= o < r@.len() ==> #[trigger] r@[o] == self.walk_strides_of()[o].last(),
    {
        let last = self.shape.len() - 1;
        let n = self.strides.len();
        let mut r: Vec<usize> = Vec::new();
        let mut o: usize = 0;
        while o < n
            invariant
                o <= n,
                n == self.strides@.len(),
                last == self.shape@.len() - 1,
                forall|o: int| 0 <= o < self.strides@.len() ==> #[trigger] self.strides@[o]@.len()
                    == self.shape@.len(),
                r@.len() == o,
                forall|k: int| 0 <= k < o ==> #[trigger] r@[k] == self.walk_strides_of()[k].last(),
            decreases n - o,
        {
            r.push(self.strides[o][last]);
            o += 1;
        }
        r
    }

    /// The start of every run, as each operand's offset (modulo `usize`'s range) of an index of
    /// the outer axes: one run per outer index, in row-major order.
    pub fn runs(&self) -> (r: Vec<Vec<usize>>)
        requires
            self.wf(),
        ensures
            r@.len() == volume(outer_extent(self.walk_lengths())),
            forall|k: int|
                0 <= k < r@.len() ==> #[trigger] is_run(
                    self.walk_lengths(),
                    self.walk_stride_rows(),
                    k,
                    r@[k]@,
                ),
    {
        walk_runs(&self.shape, &self.strides)
    }
}

impl NdIterUnorderedDyn {
    /// The walk's shape, after ordering and coalescing (at least one axis).
    pub closed spec fn walk_shape_of(&self) -> Seq<int> {
        usize_ints(self.shape@)
    }

    /// The walk's shape, as stored.
    pub closed spec fn walk_lengths(&self) -> Seq<usize> {
        self.shape@
    }

    /// Every operand's strides along the walk's axes, as stored.
    pub closed spec fn walk_stride_rows(&self) -> Seq<Vec<usize>> {
        self.strides@
    }

    /// Every operand's strides along the walk's axes.
    pub closed spec fn walk_strides_of(&self) -> Seq<Seq<int>> {
        Seq::new(self.strides@.len(), |o: int| usize_ints(self.strides@[o]@))
    }

    /// The region's shape.
    pub closed spec fn region_shape(&self) -> Seq<int> {
        self.region_shape@
    }

    /// Every operand's strides in the region.
    pub closed spec fn region_strides(&self) -> Seq<Seq<int>> {
        self.region_strides@
    }

    /// The index of the region that the walk's index `u` visits.
    pub closed spec fn source_index(&self) -> spec_fn(Seq<int>) -> Seq<int> {
        self.source@
    }

    /// Per operand, whether every walk stride is a multiple of its alignment.
    pub closed spec fn aligned(&self) -> Seq<bool> {
        self.is_aligned@
    }

    /// Per operand, whether the inner run is contiguous.
    pub closed spec fn contiguous(&self) -> Seq<bool> {
        self.is_contiguous@
    }

    /// The iterator is internally consistent: every operand has a stride per walk axis, and the
    /// walk visits exactly the region's elements.
    pub closed spec fn wf(&self) -> bool {
        &&& self.shape@.len() >= 1
        &&& self.is_aligned@.len() == self.strides@.len()
        &&& self.is_contiguous@.len() == self.strides@.len()
        &&& forall|o: int| 0 <= o < self.strides@.len() ==> #[trigger] self.strides@[o]@.len()
            == self.shape@.len()
        &&& walks_same(
            self.region_shape@,
            self.region_strides@,
            usize_ints(self.shape@),
            Seq::new(self.strides@.len(), |o: int| usize_ints(self.strides@[o]@)),
            self.source@,
        )
    }

    /// Walking the walk's layout visits exactly the region's elements, each once.
    pub proof fn lemma_walks_region(&self)
        requires
            self.wf(),
        ensures
            walks_same(
                self.region_shape(),
                self.region_strides(),
                self.walk_shape_of(),
                self.walk_strides_of(),
                self.source_index(),
            ),
            self.walk_shape_of().len() >= 1,
            forall|o: int|
                0 <= o < self.walk_strides_of().len() ==> #[trigger] self.walk_strides_of()[o].len()
                    == self.walk_shape_of().len(),
    {
    }

    /// How the walk's layout is stored.
    pub proof fn lemma_walk_views(&self)
        ensures
            self.walk_shape_of() == usize_ints(self.walk_lengths()),
            self.walk_strides_of() == Seq::new(
                self.walk_stride_rows().len(),
                |o: int| usize_ints(self.walk_stride_rows()[o]@),
            ),
    {
    }

    /// The length of the inner run.
    pub fn inner_len(&self) -> (r: usize)
        requires
            self.wf(),
        ensures
            r == self.walk_shape_of().last(),
    {
        self.shape[self.shape.len() - 1]
    }

    /// Each operand's stride along the inner run.
    pub fn inner_strides(&self) -> (r: Vec<usize>)
        requires
            self.wf(),
        ensures
            r@.len() == self.walk_strides_of().len(),
            forall|o: int| 0 <= o < r@.len() ==> #[trigger] r@[o] == self.walk_strides_of()[o].last(),
    {
        let last = self.shape.len() - 1;
        let n = self.strides.len();
        let mut r: Vec<usize> = Vec::new();
        let mut o: usize = 0;
        while o < n
            invariant
                o <= n,
                n == self.strides@.len(),
                last == self.shape@.len() - 1,
                forall|o: int| 0 <= o < self.strides@.len() ==> #[trigger] self.strides@[o]@.len()
                    == self.shape@.len(),
                r@.len() == o,
                forall|k: int| 0 <= k < o ==> #[trigger] r@[k] == self.walk_strides_of()[k].last(),
            decreases n - o,
        {
            r.push(self.strides[o][last]);
            o += 1;
        }
        r
    }

    /// The start of every run, as each operand's offset (modulo `usize`'s range) of an index of
    /// the outer axes: one run per outer index, in row-major order.
    pub fn runs(&self) -> (r: Vec<Vec<usize>>)
        requires
            self.wf(),
        ensures
            r@.len() == volume(outer_extent(self.walk_lengths())),
            forall|k: int|
                0 <= k < r@.len() ==> #[trigger] is_run(
                    self.walk_lengths(),
                    self.walk_stride_rows(),
                    k,
                    r@[k]@,
                ),
    {
        walk_runs(&self.shape, &self.strides)
    }
}

impl NdIterUnorderedDyn {
    /// Orders and coalesces the axes of the region `shape` whose operands have `strides` and
    /// `layouts` (size, alignment), and computes the inner-run flags.
    pub fn new(shape: &[usize], strides: &[&[usize]], layouts: &[(usize, usize)]) -> (r: Self)
        requires
            strides@.len() == layouts@.len(),
            forall|o: int| 0 <= o < strides@.len() ==> #[trigger] strides@[o]@.len() == shape@.len(),
            seq_prod(usize_ints(shape@)) <= usize::MAX,
        ensures
            r.wf(),
            r.region_shape() == usize_ints(shape@),
            r.region_strides() == operand_strides(strides@),
            r.walk_shape_of() == walk_shape(
                usize_ints(shape@),
                operand_strides(strides@),
                Seq::new(strides@.len(), |o: int| true),
            ),
            r.walk_strides_of() == walk_strides(
                usize_ints(shape@),
                operand_strides(strides@),
                layout_sizes(layouts@),
                Seq::new(strides@.len(), |o: int| true),
            ),
            r.aligned() == aligned_flags(no_steps(usize_ints(shape@)), r.walk_strides_of(), layouts@),
            r.contiguous() == contiguous_flags(no_steps(usize_ints(shape@)), r.walk_strides_of(), layouts@),
    {
        let n = strides.len();
        let mut sizes: Vec<usize> = Vec::new();
        let mut affects: Vec<bool> = Vec::new();
        let mut o: usize = 0;
        while o < n
            invariant
                o <= n,
                n == layouts@.len(),
                sizes@.len() == o,
                affects@.len() == o,
                forall|k: int| 0 <= k < o ==> #[trigger] sizes@[k] == layouts@[k].0,
                forall|k: int| 0 <= k < o ==> #[trigger] affects@[k],
            decreases n - o,
        {
            sizes.push(layouts[o].0);
            affects.push(true);
            o += 1;
        }
        proof {
            assert(usize_ints(sizes@) =~= layout_sizes(layouts@));
            assert(affects@ =~= Seq::new(strides@.len(), |o: int| true));
        }
        let (lens, rows, source) = walk_layout(shape, strides, &sizes, &affects);
        let flat = region_has_no_steps(shape);
        let (is_aligned, is_contiguous) = walk_flags(flat, &rows, layouts);
        let r = NdIterUnorderedDyn {
            shape: lens,
            strides: rows,
            is_aligned,
            is_contiguous,
            region_shape: Ghost(usize_ints(shape@)),
            region_strides: Ghost(operand_strides(strides@)),
            source,
        };
        proof {
            assert(r.walk_strides_of() =~= walk_strides(
                usize_ints(shape@),
                operand_strides(strides@),
                layout_sizes(layouts@),
                Seq::new(strides@.len(), |o: int| true),
            ));
        }
        r
    }

    /// Per operand, whether every walk stride is a multiple of its alignment.
    pub fn is_aligned(&self) -> (r: &[bool])
        ensures
            r@ == self.aligned(),
    {
        self.is_aligned.as_slice()
    }

    /// Per operand, whether the inner run is contiguous (its stride is the element size).
    pub fn is_contiguous(&self) -> (r: &[bool])
        ensures
            r@ == self.contiguous(),
    {
        self.is_contiguous.as_slice()
    }
}

impl<const N: usize> NdIterUnordered<N> {
    /// Orders and coalesces the axes of the region `shape` whose operands have `strides` and
    /// `layouts` (size, alignment), every operand taking part in the order.
    pub fn new(shape: &[usize], strides: [&[usize]; N], layouts: [(usize, usize); N]) -> (r: Self)
        requires
            forall|o: int| 0 <= o < N ==> #[trigger] strides@[o]@.len() == shape@.len(),
            seq_prod(usize_ints(shape@)) <= usize::MAX,
        ensures
            r.wf(),
            r.region_shape() == usize_ints(shape@),
            r.region_strides() == operand_strides(strides@),
            r.walk_shape_of() == walk_shape(
                usize_ints(shape@),
                operand_strides(strides@),
                Seq::new(N as nat, |o: int| true),
            ),
            r.walk_strides_of() == walk_strides(
                usize_ints(shape@),
                operand_strides(strides@),
                layout_sizes(layouts@),
                Seq::new(N as nat, |o: int| true),
            ),
            r.aligned() == aligned_flags(no_steps(usize_ints(shape@)), r.walk_strides_of(), layouts@),
            r.contiguous() == contiguous_flags(no_steps(usize_ints(shape@)), r.walk_strides_of(), layouts@),
    {
        let mut affects: [bool; N] = [true; N];
        proof {
            assert(affects@ =~= Seq::new(N as nat, |o: int| true));
        }
        Self::new_with(shape, strides, layouts, affects)
    }

    /// Like [`new`](Self::new), with the operands whose `affects_dim_order` flag is false left
    /// out of ordering the axes.
    pub fn new_with(
        shape: &[usize],
        strides: [&[usize]; N],
        layouts: [(usize, usize); N],
        affects_dim_order: [bool; N],
    ) -> (r: Self)
        requires
            forall|o: int| 0 <= o < N ==> #[trigger] strides@[o]@.len() == shape@.len(),
            seq_prod(usize_ints(shape@)) <= usize::MAX,
        ensures
            r.wf(),
            r.region_shape() == usize_ints(shape@),
            r.region_strides() == operand_strides(strides@),
            r.walk_shape_of() == walk_shape(
                usize_ints(shape@),
                operand_strides(strides@),
                affects_dim_order@,
            ),
            r.walk_strides_of() == walk_strides(
                usize_ints(shape@),
                operand_strides(strides@),
                layout_sizes(layouts@),
                affects_dim_order@,
            ),
            r.aligned() == aligned_flags(no_steps(usize_ints(shape@)), r.walk_strides_of(), layouts@),
            r.contiguous() == contiguous_flags(no_steps(usize_ints(shape@)), r.walk_strides_of(), layouts@),
    {
        let strides_s = strides.as_slice();
        let layouts_s = layouts.as_slice();
        let affects_s = affects_dim_order.as_slice();
        let mut sizes: Vec<usize> = Vec::new();
        let mut o: usize = 0;
        while o < N
            invariant
                o <= N,
                layouts_s@ == layouts@,
                sizes@.len() == o,
                forall|k: int| 0 <= k < o ==> #[trigger] sizes@[k] == layouts@[k].0,
            decreases N - o,
        {
            sizes.push(layouts_s[o].0);
            o += 1;
        }
        proof {
            assert(usize_ints(sizes@) =~= layout_sizes(layouts@));
        }
        let (lens, rows, source) = walk_layout(
            shape,
            strides_s,
            &sizes,
            affects_s,
        );
        let flat = region_has_no_steps(shape);
        let (is_aligned, is_contiguous) = walk_flags(flat, &rows, layouts_s);
        let r = NdIterUnordered {
            shape: lens,
            strides: rows,
            is_aligned,
            is_contiguous,
            region_shape: Ghost(usize_ints(shape@)),
            region_strides: Ghost(operand_strides(strides@)),
            source,
        };
        proof {
            assert(r.walk_strides_of() =~= walk_strides(
                usize_ints(shape@),
                operand_strides(strides@),
                layout_sizes(layouts@),
                affects_dim_order@,
            ));
        }
        r
    }

    /// Per operand, whether every walk stride is a multiple of its alignment.
    pub fn is_aligned(&self) -> (r: &[bool])
        ensures
            r@ == self.aligned(),
    {
        self.is_aligned.as_slice()
    }

    /// Per operand, whether the inner run is contiguous (its stride is the element size).
    pub fn is_contiguous(&self) -> (r: &[bool])
        ensures
            r@ == self.contiguous(),
    {
        self.is_contiguous.as_slice()
    }
}


/// The walk of [`NdIterUnorderedDyn::new`] is that of [`NdIterUnordered::new`] on the same
/// region, strides and layouts: the same shape and strides after ordering and coalescing (hence
/// the same inner run length and inner strides), and the same flags.
pub proof fn lemma_dyn_walks_as_const<const N: usize>(
    d: NdIterUnorderedDyn,
    c: NdIterUnordered<N>,
    shape: Seq<int>,
    strides: Seq<Seq<int>>,
    layouts: Seq<(usize, usize)>,
)
    requires
        strides.len() == N,
        layouts.len() == N,
        d.walk_shape_of() == walk_shape(shape, strides, Seq::new(strides.len(), |o: int| true)),
        d.walk_strides_of() == walk_strides(
            shape,
            strides,
            layout_sizes(layouts),
            Seq::new(strides.len(), |o: int| true),
        ),
        d.aligned() == aligned_flags(no_steps(shape), d.walk_strides_of(), layouts),
        d.contiguous() == contiguous_flags(no_steps(shape), d.walk_strides_of(), layouts),
        c.walk_shape_of() == walk_shape(shape, strides, Seq::new(N as nat, |o: int| true)),
        c.walk_strides_of() == walk_strides(
            shape,
            strides,
            layout_sizes(layouts),
            Seq::new(N as nat, |o: int| true),
        ),
        c.aligned() == aligned_flags(no_steps(shape), c.walk_strides_of(), layouts),
        c.contiguous() == contiguous_flags(no_steps(shape), c.walk_strides_of(), layouts),
    ensures
        d.walk_shape_of() == c.walk_shape_of(),
        d.walk_strides_of() == c.walk_strides_of(),
        d.aligned() == c.aligned(),
        d.contiguous() == c.contiguous(),
{
    assert(Seq::new(strides.len(), |o: int| true) =~= Seq::new(N as nat, |o: int| true));
}


// ---------------------------------------------------------------------------
// What the runs visit
// ---------------------------------------------------------------------------

/// The outer index of a walk over `shape` whose row-major rank is `k`.
pub open spec fn outer_index(shape: Seq<usize>, k: int) -> Seq<int> {
    choose|v: Seq<int>| in_box(outer_extent(shape), v) && ravel(outer_extent(shape), v) == k
}

/// The region index that element `t` of run `k` of a walk over `shape` visits, `source` mapping
/// walk indices to region indices.
pub open spec fn run_element(
    shape: Seq<usize>,
    source: spec_fn(Seq<int>) -> Seq<int>,
    k: int,
    t: int,
) -> Seq<int> {
    source(outer_index(shape, k).push(t))
}

proof fn lemma_dot_push(v: Seq<int>, t: int, s: Seq<int>)
    requires
        s.len() == v.len() + 1,
    ensures
        dot(v.push(t), s) == dot(v, s.take(v.len() as int)) + t * s[v.len() as int],
{
    assert(terms(v.push(t), s).drop_last() =~= terms(v, s.take(v.len() as int)));
}

/// The runs of a walk, each `shape.last()` elements long from its start with the inner strides,
/// visit exactly the elements of the region, each once, at their offsets: element `t` of run `k`
/// is the region index [`run_element`] at the same offset (modulo `usize`'s range) for every
/// operand; no two elements of runs are the same region index; and every region index is one.
#[verifier::spinoff_prover]
#[verifier::rlimit(50)]
pub proof fn lemma_runs_visit_region(
    shape: Seq<usize>,
    rows: Seq<Vec<usize>>,
    region_shape: Seq<int>,
    region_strides: Seq<Seq<int>>,
    source: spec_fn(Seq<int>) -> Seq<int>,
    runs: Seq<Vec<usize>>,
)
    requires
        shape.len() >= 1,
        forall|o: int| 0 <= o < rows.len() ==> #[trigger] rows[o]@.len() == shape.len(),
        walks_same(
            region_shape,
            region_strides,
            usize_ints(shape),
            Seq::new(rows.len(), |o: int| usize_ints(rows[o]@)),
            source,
        ),
        runs.len() == volume(outer_extent(shape)),
        forall|k: int| 0 <= k < runs.len() ==> #[trigger] is_run(shape, rows, k, runs[k]@),
    ensures
        forall|k: int, t: int|
            0 <= k < runs.len() && 0 <= t < shape.last() ==> {
                &&& within(region_shape, #[trigger] run_element(shape, source, k, t))
                &&& runs[k]@.len() == rows.len()
                &&& forall|o: int|
                    0 <= o < rows.len() ==> (runs[k]@[o] + t * rows[o]@[shape.len() - 1]) % (
                    usize::MAX as int + 1) == dot(run_element(shape, source, k, t), region_strides[o])
                        % (usize::MAX as int + 1)
            },
        forall|k1: int, t1: int, k2: int, t2: int|
            0 <= k1 < runs.len() && 0 <= t1 < shape.last() && 0 <= k2 < runs.len() && 0 <= t2
                < shape.last() && #[trigger] run_element(shape, source, k1, t1)
                == #[trigger] run_element(shape, source, k2, t2) ==> k1 == k2 && t1 == t2,
        forall|x: Seq<int>|
            #[trigger] within(region_shape, x) ==> exists|k: int, t: int|
                0 <= k < runs.len() && 0 <= t < shape.last() && #[trigger] run_element(
                    shape,
                    source,
                    k,
                    t,
                ) == x,
{
    let n = shape.len() as int;
    let oe = outer_extent(shape);
    let ws = usize_ints(shape);
    let wst = Seq::new(rows.len(), |o: int| usize_ints(rows[o]@));
    let m = usize::MAX as int + 1;
    assert forall|k: int, t: int| 0 <= k < runs.len() && 0 <= t < shape.last() implies {
        &&& within(region_shape, #[trigger] run_element(shape, source, k, t))
        &&& runs[k]@.len() == rows.len()
        &&& forall|o: int|
            0 <= o < rows.len() ==> (runs[k]@[o] + t * rows[o]@[shape.len() - 1]) % (usize::MAX as int
                + 1) == dot(run_element(shape, source, k, t), region_strides[o]) % (usize::MAX as int + 1)
    } by {
        assert(is_run(shape, rows, k, runs[k]@));
        let w = choose|w: Seq<int>|
            in_box(oe, w) && ravel(oe, w) == k && runs[k]@.len() == rows.len() && forall|o: int|
                0 <= o < rows.len() ==> runs[k]@[o] == dot(w, usize_ints(rows[o]@).take(n - 1)) % m;
        let v = outer_index(shape, k);
        lemma_ravel_one_to_one(oe, v, w);
        let u = v.push(t);
        assert(within(ws, u));
        assert(within(region_shape, source(u)));
        assert forall|o: int| 0 <= o < rows.len() implies (runs[k]@[o] + t * rows[o]@[n - 1]) % m
            == dot(run_element(shape, source, k, t), region_strides[o]) % m by {
            let s = usize_ints(rows[o]@);
            lemma_dot_push(v, t, s);
            assert(offsets(region_strides, source(u))[o] == offsets(wst, u)[o]);
            let a = dot(v, s.take(n - 1));
            let b = t * rows[o]@[n - 1];
            vstd::arithmetic::div_mod::lemma_add_mod_noop(a, b, m);
            vstd::arithmetic::div_mod::lemma_add_mod_noop(a % m, b, m);
            vstd::arithmetic::div_mod::lemma_mod_twice(a, m);
        }
    }
    assert forall|k1: int, t1: int, k2: int, t2: int|
        0 <= k1 < runs.len() && 0 <= t1 < shape.last() && 0 <= k2 < runs.len() && 0 <= t2
            < shape.last() && #[trigger] run_element(shape, source, k1, t1)
            == #[trigger] run_element(shape, source, k2, t2) implies k1 == k2 && t1 == t2 by {
        assert(is_run(shape, rows, k1, runs[k1]@));
        assert(is_run(shape, rows, k2, runs[k2]@));
        let v1 = outer_index(shape, k1);
        let v2 = outer_index(shape, k2);
        let u1 = v1.push(t1);
        let u2 = v2.push(t2);
        assert(within(ws, u1));
        assert(within(ws, u2));
        assert(u1 == u2);
        assert(v1 =~= u1.drop_last());
        assert(v2 =~= u2.drop_last());
        assert(u1.last() == t1);
        assert(u2.last() == t2);
    }
    assert forall|x: Seq<int>| #[trigger] within(region_shape, x) implies exists|k: int, t: int|
        0 <= k < runs.len() && 0 <= t < shape.last() && #[trigger] run_element(shape, source, k, t)
            == x by {
        let u = choose|u: Seq<int>| within(ws, u) && #[trigger] source(u) == x;
        let v = u.drop_last();
        let t = u.last();
        assert(in_box(oe, v));
        lemma_ravel_bounds(oe, v, 0);
        let k = ravel(oe, v);
        let v2 = outer_index(shape, k);
        lemma_ravel_one_to_one(oe, v, v2);
        assert(v2.push(t) =~= u);
        assert(run_element(shape, source, k, t) == x);
    }
}


impl<const N: usize> NdIterUnordered<N> {
    /// The runs that [`runs`](Self::runs) hands out, each [`inner_len`](Self::inner_len) long with
    /// the inner strides, visit exactly the region's elements, each once, at their offsets, as
    /// [`lemma_runs_visit_region`] states.
    #[verifier::spinoff_prover]
    pub proof fn lemma_runs_visit(&self, runs: Seq<Vec<usize>>)
        requires
            self.wf(),
            runs.len() == volume(outer_extent(self.walk_lengths())),
            forall|k: int|
                0 <= k < runs.len() ==> #[trigger] is_run(
                    self.walk_lengths(),
                    self.walk_stride_rows(),
                    k,
                    runs[k]@,
                ),
        ensures
            forall|k: int, t: int|
                0 <= k < runs.len() && 0 <= t < self.walk_lengths().last() ==> {
                    &&& within(
                        self.region_shape(),
                        #[trigger] run_element(self.walk_lengths(), self.source_index(), k, t),
                    )
                    &&& runs[k]@.len() == self.walk_stride_rows().len()
                    &&& forall|o: int|
                        0 <= o < self.walk_stride_rows().len() ==> (runs[k]@[o] + t
                            * self.walk_stride_rows()[o]@[self.walk_lengths().len() - 1]) % (usize::MAX as int
                            + 1) == dot(
                            run_element(self.walk_lengths(), self.source_index(), k, t),
                            self.region_strides()[o],
                        ) % (usize::MAX as int + 1)
                },
            forall|k1: int, t1: int, k2: int, t2: int|
                0 <= k1 < runs.len() && 0 <= t1 < self.walk_lengths().last() && 0 <= k2 < runs.len()
                    && 0 <= t2 < self.walk_lengths().last() && #[trigger] run_element(
                    self.walk_lengths(),
                    self.source_index(),
                    k1,
                    t1,
                ) == #[trigger] run_element(self.walk_lengths(), self.source_index(), k2, t2)
                    ==> k1 == k2 && t1 == t2,
            forall|x: Seq<int>|
                #[trigger] within(self.region_shape(), x) ==> exists|k: int, t: int|
                    0 <= k < runs.len() && 0 <= t < self.walk_lengths().last() && #[trigger] run_element(
                        self.walk_lengths(),
                        self.source_index(),
                        k,
                        t,
                    ) == x,
    {
        self.lemma_walks_region();
        self.lemma_walk_views();
        assert forall|o: int| 0 <= o < self.walk_stride_rows().len() implies #[trigger] self.walk_stride_rows()[o]@.len()
            == self.walk_lengths().len() by {
            assert(self.walk_strides_of()[o].len() == self.walk_shape_of().len());
        }
        lemma_runs_visit_region(
            self.walk_lengths(),
            self.walk_stride_rows(),
            self.region_shape(),
            self.region_strides(),
            self.source_index(),
            runs,
        );
    }
}

impl NdIterUnorderedDyn {
    /// The runs that [`runs`](Self::runs) hands out, each [`inner_len`](Self::inner_len) long with
    /// the inner strides, visit exactly the region's elements, each once, at their offsets, as
    /// [`lemma_runs_visit_region`] states.
    #[verifier::spinoff_prover]
    pub proof fn lemma_runs_visit(&self, runs: Seq<Vec<usize>>)
        requires
            self.wf(),
            runs.len() == volume(outer_extent(self.walk_lengths())),
            forall|k: int|
                0 <= k < runs.len() ==> #[trigger] is_run(
                    self.walk_lengths(),
                    self.walk_stride_rows(),
                    k,
                    runs[k]@,
                ),
        ensures
            forall|k: int, t: int|
                0 <= k < runs.len() && 0 <= t < self.walk_lengths().last() ==> {
                    &&& within(
                        self.region_shape(),
                        #[trigger] run_element(self.walk_lengths(), self.source_index(), k, t),
                    )
                    &&& runs[k]@.len() == self.walk_stride_rows().len()
                    &&& forall|o: int|
                        0 <= o < self.walk_stride_rows().len() ==> (runs[k]@[o] + t
                            * self.walk_stride_rows()[o]@[self.walk_lengths().len() - 1]) % (usize::MAX as int
                            + 1) == dot(
                            run_element(self.walk_lengths(), self.source_index(), k, t),
                            self.region_strides()[o],
                        ) % (usize::MAX as int + 1)
                },
            forall|k1: int, t1: int, k2: int, t2: int|
                0 <= k1 < runs.len() && 0 <= t1 < self.walk_lengths().last() && 0 <= k2 < runs.len()
                    && 0 <= t2 < self.walk_lengths().last() && #[trigger] run_element(
                    self.walk_lengths(),
                    self.source_index(),
                    k1,
                    t1,
                ) == #[trigger] run_element(self.walk_lengths(), self.source_index(), k2, t2)
                    ==> k1 == k2 && t1 == t2,
            forall|x: Seq<int>|
                #[trigger] within(self.region_shape(), x) ==> exists|k: int, t: int|
                    0 <= k < runs.len() && 0 <= t < self.walk_lengths().last() && #[trigger] run_element(
                        self.walk_lengths(),
                        self.source_index(),
                        k,
                        t,
                    ) == x,
    {
        self.lemma_walks_region();
        self.lemma_walk_views();
        assert forall|o: int| 0 <= o < self.walk_stride_rows().len() implies #[trigger] self.walk_stride_rows()[o]@.len()
            == self.walk_lengths().len() by {
            assert(self.walk_strides_of()[o].len() == self.walk_shape_of().len());
        }
        lemma_runs_visit_region(
            self.walk_lengths(),
            self.walk_stride_rows(),
            self.region_shape(),
            self.region_strides(),
            self.source_index(),
            runs,
        );
    }
}

/// Built from the same region, strides and layouts, the dynamic walk hands out the same runs as
/// the fixed one, in the same order, with the same inner run length and inner strides: the
/// runs of the two are equal one by one.
#[verifier::spinoff_prover]
#[verifier::rlimit(50)]
pub proof fn lemma_dyn_runs_as_const<const N: usize>(
    d: NdIterUnorderedDyn,
    c: NdIterUnordered<N>,
    shape: Seq<int>,
    strides: Seq<Seq<int>>,
    layouts: Seq<(usize, usize)>,
    dyn_runs: Seq<Vec<usize>>,
    const_runs: Seq<Vec<usize>>,
)
    requires
        d.wf(),
        c.wf(),
        strides.len() == N,
        layouts.len() == N,
        d.walk_shape_of() == walk_shape(shape, strides, Seq::new(strides.len(), |o: int| true)),
        d.walk_strides_of() == walk_strides(
            shape,
            strides,
            layout_sizes(layouts),
            Seq::new(strides.len(), |o: int| true),
        ),
        d.aligned() == aligned_flags(no_steps(shape), d.walk_strides_of(), layouts),
        d.contiguous() == contiguous_flags(no_steps(shape), d.walk_strides_of(), layouts),
        c.walk_shape_of() == walk_shape(shape, strides, Seq::new(N as nat, |o: int| true)),
        c.walk_strides_of() == walk_strides(
            shape,
            strides,
            layout_sizes(layouts),
            Seq::new(N as nat, |o: int| true),
        ),
        c.aligned() == aligned_flags(no_steps(shape), c.walk_strides_of(), layouts),
        c.contiguous() == contiguous_flags(no_steps(shape), c.walk_strides_of(), layouts),
        dyn_runs.len() == volume(outer_extent(d.walk_lengths())),
        forall|k: int|
            0 <= k < dyn_runs.len() ==> #[trigger] is_run(
                d.walk_lengths(),
                d.walk_stride_rows(),
                k,
                dyn_runs[k]@,
            ),
        const_runs.len() == volume(outer_extent(c.walk_lengths())),
        forall|k: int|
            0 <= k < const_runs.len() ==> #[trigger] is_run(
                c.walk_lengths(),
                c.walk_stride_rows(),
                k,
                const_runs[k]@,
            ),
    ensures
        d.walk_lengths() == c.walk_lengths(),
        d.walk_lengths().last() == c.walk_lengths().last(),
        d.walk_stride_rows().len() == c.walk_stride_rows().len(),
        forall|o: int|
            0 <= o < d.walk_stride_rows().len() ==> #[trigger] d.walk_stride_rows()[o]@
                == c.walk_stride_rows()[o]@,
        dyn_runs.len() == const_runs.len(),
        forall|k: int| 0 <= k < dyn_runs.len() ==> #[trigger] dyn_runs[k]@ == const_runs[k]@,
{
    lemma_dyn_walks_as_const(d, c, shape, strides, layouts);
    d.lemma_walk_views();
    c.lemma_walk_views();
    d.lemma_walks_region();
    c.lemma_walks_region();
    let dl = d.walk_lengths();
    let cl = c.walk_lengths();
    assert(dl =~= cl) by {
        assert forall|i: int| 0 <= i < dl.len() implies dl[i] == cl[i] by {
            assert(usize_ints(dl)[i] == usize_ints(cl)[i]);
        }
    }
    let dr = d.walk_stride_rows();
    let cr = c.walk_stride_rows();
    assert forall|o: int| 0 <= o < dr.len() implies #[trigger] dr[o]@ == cr[o]@ by {
        assert(usize_ints(dr[o]@) == d.walk_strides_of()[o]);
        assert(usize_ints(cr[o]@) == c.walk_strides_of()[o]);
        assert(dr[o]@ =~= cr[o]@) by {
            assert forall|i: int| 0 <= i < dr[o]@.len() implies dr[o]@[i] == cr[o]@[i] by {
                assert(usize_ints(dr[o]@)[i] == usize_ints(cr[o]@)[i]);
            }
        }
    }
    let oe = outer_extent(dl);
    assert forall|k: int| 0 <= k < dyn_runs.len() implies #[trigger] dyn_runs[k]@ == const_runs[k]@ by {
        assert(is_run(dl, dr, k, dyn_runs[k]@));
        assert(is_run(cl, cr, k, const_runs[k]@));
        let v1 = choose|v: Seq<int>|
            in_box(oe, v) && ravel(oe, v) == k && dyn_runs[k]@.len() == dr.len() && forall|o: int|
                0 <= o < dr.len() ==> dyn_runs[k]@[o] == dot(v, usize_ints(dr[o]@).take(dl.len() - 1))
                    % (usize::MAX as int + 1);
        let v2 = choose|v: Seq<int>|
            in_box(oe, v) && ravel(oe, v) == k && const_runs[k]@.len() == cr.len() && forall|o: int|
                0 <= o < cr.len() ==> const_runs[k]@[o] == dot(v, usize_ints(cr[o]@).take(cl.len() - 1))
                    % (usize::MAX as int + 1);
        lemma_ravel_one_to_one(oe, v1, v2);
        assert(dyn_runs[k]@ =~= const_runs[k]@) by {
            assert forall|o: int| 0 <= o < dr.len() implies dyn_runs[k]@[o] == const_runs[k]@[o] by {
                assert(dr[o]@ == cr[o]@);
            }
        }
    }
}


// ---------------------------------------------------------------------------
// The inner run and the flags, against the region
// ---------------------------------------------------------------------------

impl<const N: usize> NdIterUnordered<N> {
    /// The region's volume is the inner run's length times the number of runs: the inner length
    /// divides the volume.
    pub proof fn lemma_inner_len_divides(&self)
        requires
            self.wf(),
        ensures
            seq_prod(self.region_shape()) == seq_prod(self.walk_shape_of().drop_last())
                * self.walk_shape_of().last(),
            self.walk_shape_of().last() > 0 ==> seq_prod(self.region_shape())
                % self.walk_shape_of().last() == 0,
    {
        self.lemma_walks_region();
        let w = self.walk_shape_of();
        if w.last() > 0 {
            vstd::arithmetic::div_mod::lemma_mod_multiples_basic(seq_prod(w.drop_last()), w.last());
        }
    }
}

/// `x` is a multiple of `alignment` (only 0 when `alignment` is 0).
pub open spec fn stride_aligned(x: int, alignment: int) -> bool {
    if alignment == 0 {
        x == 0
    } else {
        x % alignment == 0
    }
}

/// `y` times `m`.
pub open spec fn scaled(y: int, m: int) -> int {
    y * m
}

/// `x` is `y` times a nonnegative integer.
pub open spec fn multiple_of(x: int, y: int) -> bool {
    exists|m: int| m >= 0 && x == #[trigger] scaled(y, m)
}

proof fn lemma_multiple_aligned(x: int, y: int, alignment: int)
    requires
        multiple_of(x, y),
        stride_aligned(y, alignment),
        alignment >= 0,
    ensures
        stride_aligned(x, alignment),
{
    let m = choose|m: int| m >= 0 && x == #[trigger] scaled(y, m);
    if alignment == 0 {
        assert(x == 0 * m);
    } else {
        vstd::arithmetic::div_mod::lemma_fundamental_div_mod(y, alignment);
        let q = y / alignment;
        assert(x == (q * m) * alignment) by (nonlinear_arith)
            requires
                x == y * m,
                y == alignment * q + y % alignment,
                y % alignment == 0,
        ;
        vstd::arithmetic::div_mod::lemma_mod_multiples_basic(q * m, alignment);
    }
}

/// Every axis of the first `t` ordered axes has, for operand `o`, a stride that is a multiple of
/// the stride along the innermost axis of some group, and every group's innermost axis is one of
/// them.
/// `x` is a multiple of the stride `s` along the innermost axis of one of the groups `inners`.
pub open spec fn in_some_group(s: Seq<int>, x: int, inners: Seq<usize>) -> bool {
    exists|g: int| 0 <= g < inners.len() && #[trigger] multiple_of(x, s[inners[g] as int])
}

/// Every axis of the first `t` ordered axes has, for operand `o`, a stride that is a multiple of
/// the stride along the innermost axis of some group, and every group's innermost axis is one of
/// them.
#[verifier::spinoff_prover]
#[verifier::rlimit(50)]
proof fn lemma_coalesced_strides(
    shape: Seq<int>,
    strides: Seq<Seq<int>>,
    axes: Seq<usize>,
    t: int,
    o: int,
)
    requires
        0 <= t <= axes.len(),
        0 <= o < strides.len(),
        forall|k: int| 0 <= k < axes.len() ==> #[trigger] shape[axes[k] as int] > 1,
    ensures
        coalesced(shape, strides, axes, t).0.len() == coalesced(shape, strides, axes, t).1.len(),
        forall|j: int|
            0 <= j < t ==> in_some_group(
                strides[o],
                #[trigger] strides[o][axes[j] as int],
                coalesced(shape, strides, axes, t).1,
            ),
        forall|g: int|
            0 <= g < coalesced(shape, strides, axes, t).1.len() ==> exists|j: int|
                0 <= j < t && axes[j] == #[trigger] coalesced(shape, strides, axes, t).1[g],
    decreases t,
{
    if t > 0 {
        lemma_coalesced_strides(shape, strides, axes, t - 1, o);
        lemma_coalesced_long(shape, strides, axes, t - 1);
        let lens = coalesced(shape, strides, axes, t - 1).0;
        let inners = coalesced(shape, strides, axes, t - 1).1;
        let inners2 = coalesced(shape, strides, axes, t).1;
        let d = axes[t - 1] as int;
        let m = lens.len() as int;
        let s = strides[o];
        let joins = m > 0 && chained(shape, strides, inners[m - 1] as int, d);
        let gn: int = if joins { m - 1 } else { m };
        assert(inners2[gn] as int == d);
        assert(inners2.len() == if joins { m } else { m + 1 });
        assert forall|g: int| 0 <= g < inners.len() && g != gn implies #[trigger] inners2[g] == inners[g] by {}
        if joins {
            assert(s[inners[m - 1] as int] == s[d] * shape[d]);
        }
        assert forall|j: int| 0 <= j < t implies in_some_group(s, #[trigger] s[axes[j] as int], inners2) by {
            if j == t - 1 {
                assert(s[axes[j] as int] == scaled(s[inners2[gn] as int], 1));
                assert(multiple_of(s[axes[j] as int], s[inners2[gn] as int]));
            } else {
                assert(in_some_group(s, s[axes[j] as int], inners));
                let g = choose|g: int|
                    0 <= g < inners.len() && #[trigger] multiple_of(s[axes[j] as int], s[inners[g] as int]);
                let mm = choose|mm: int| mm >= 0 && s[axes[j] as int] == #[trigger] scaled(s[inners[g] as int], mm);
                if joins && g == m - 1 {
                    assert(s[axes[j] as int] == s[d] * (shape[d] * mm)) by (nonlinear_arith)
                        requires
                            s[axes[j] as int] == s[inners[g] as int] * mm,
                            s[inners[g] as int] == s[d] * shape[d],
                    ;
                    assert(shape[d] * mm >= 0) by (nonlinear_arith)
                        requires
                            shape[d] > 1,
                            mm >= 0,
                    ;
                    assert(s[axes[j] as int] == scaled(s[inners2[g] as int], shape[d] * mm));
                    assert(multiple_of(s[axes[j] as int], s[inners2[g] as int]));
                } else {
                    assert(inners2[g] == inners[g]);
                    assert(multiple_of(s[axes[j] as int], s[inners2[g] as int]));
                }
            }
        }
        assert forall|g: int| 0 <= g < inners2.len() implies exists|j: int|
            0 <= j < t && axes[j] == #[trigger] inners2[g] by {
            if g == gn {
                assert(axes[t - 1] == inners2[g]);
            } else {
                assert(inners2[g] == inners[g]);
                let j = choose|j: int| 0 <= j < t - 1 && axes[j] == #[trigger] inners[g];
                assert(axes[j] == inners2[g]);
            }
        }
    }
}

proof fn lemma_long_axes_complete(shape: Seq<int>, d: int, e: int)
    requires
        0 <= e < d <= shape.len(),
        shape[e] > 1,
    ensures
        long_axes(shape, d).contains(e as usize),
    decreases d,
{
    if e < d - 1 {
        lemma_long_axes_complete(shape, d - 1, e);
        let prev = long_axes(shape, d - 1);
        let j = choose|j: int| 0 <= j < prev.len() && prev[j] == e as usize;
        if shape[d - 1] > 1 {
            assert(long_axes(shape, d)[j] == e as usize);
        }
    } else {
        let cur = long_axes(shape, d);
        assert(cur[cur.len() - 1] == e as usize);
    }
}

/// Where the region has steps (it is not empty and not a single element), an operand's walk
/// strides are all multiples of its alignment exactly when its strides along every axis longer
/// than 1 are: the flag the walk reports is alignment over the input strides.
#[verifier::spinoff_prover]
#[verifier::rlimit(50)]
pub proof fn lemma_walk_alignment(
    shape: Seq<int>,
    strides: Seq<Seq<int>>,
    sizes: Seq<int>,
    affects: Seq<bool>,
    layouts: Seq<(usize, usize)>,
    o: int,
)
    requires
        shape.len() <= usize::MAX,
        forall|d: int| 0 <= d < shape.len() ==> #[trigger] shape[d] >= 0,
        well_shaped(shape, strides),
        sizes.len() == strides.len(),
        layouts.len() == strides.len(),
        0 <= o < strides.len(),
        !no_steps(shape),
    ensures
        aligned_flags(no_steps(shape), walk_strides(shape, strides, sizes, affects), layouts)[o]
            == forall|d: int|
            0 <= d < shape.len() && shape[d] > 1 ==> #[trigger] stride_aligned(
                strides[o][d],
                layouts[o].1 as int,
            ),
{
    let al = layouts[o].1 as int;
    let axes = ordered_axes(shape, strides, affects);
    let rank = |d1: usize, d2: usize|
        axis_rank(strides, affects, shape.len() as int, d1 as int, d2 as int);
    let la = long_axes(shape, shape.len() as int);
    lemma_long_axes(shape, shape.len() as int);
    let f = lemma_sorted_axes_walk_same(shape, strides, rank, la, 1);
    assert(axes == insertion_sorted_from(rank, la, 1));
    crate::storage::elementwise_pipeline::lemma_insertion_sorted_permutes(rank, la, 1);
    assert forall|k: int| 0 <= k < axes.len() implies #[trigger] shape[axes[k] as int] > 1 by {
        assert(la.contains(axes[k]));
        let j = choose|j: int| 0 <= j < la.len() && la[j] == axes[k];
        assert(shape[la[j] as int] > 1);
    }
    assert(!(exists|d: int| 0 <= d < shape.len() && #[trigger] shape[d] == 0));
    let e0 = choose|e: int| 0 <= e < shape.len() && !(#[trigger] shape[e] == 1);
    assert(shape[e0] > 1);
    lemma_long_axes_complete(shape, shape.len() as int, e0);
    assert(axes.len() > 0) by {
        broadcast use vstd::seq_lib::group_to_multiset_ensures;
        assert(la.to_multiset().count(e0 as usize) > 0);
    }
    lemma_coalesced_strides(shape, strides, axes, axes.len() as int, o);
    let inners = coalesced(shape, strides, axes, axes.len() as int).1;
    let wso = walk_strides(shape, strides, sizes, affects)[o];
    assert(wso == Seq::new(inners.len(), |g: int| strides[o][inners[g] as int]));
    let lhs = strides_aligned(wso, al);
    let rhs = forall|d: int| 0 <= d < shape.len() && shape[d] > 1 ==> #[trigger] stride_aligned(
        strides[o][d],
        al,
    );
    if rhs {
        assert forall|g: int| 0 <= g < wso.len() implies if al == 0 {
            #[trigger] wso[g] == 0
        } else {
            #[trigger] wso[g] % al == 0
        } by {
            let j = choose|j: int| 0 <= j < axes.len() && axes[j] == inners[g];
            assert(shape[axes[j] as int] > 1);
            assert(stride_aligned(strides[o][inners[g] as int], al));
        }
    }
    if lhs {
        assert forall|d: int| 0 <= d < shape.len() && shape[d] > 1 implies #[trigger] stride_aligned(
            strides[o][d],
            al,
        ) by {
            lemma_long_axes_complete(shape, shape.len() as int, d);
            assert(axes.contains(d as usize)) by {
                broadcast use vstd::seq_lib::group_to_multiset_ensures;
                assert(la.to_multiset().count(d as usize) > 0);
            }
            let j = choose|j: int| 0 <= j < axes.len() && axes[j] == d as usize;
            assert(in_some_group(strides[o], strides[o][axes[j] as int], inners));
            let g = choose|g: int|
                0 <= g < inners.len() && #[trigger] multiple_of(strides[o][axes[j] as int], strides[o][inners[g] as int]);
            assert(stride_aligned(wso[g], al));
            lemma_multiple_aligned(strides[o][d], strides[o][inners[g] as int], al);
        }
    }
}

} // verus!

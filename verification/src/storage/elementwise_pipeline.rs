use vstd::prelude::*;
use crate::util::idx::Idx;
use crate::util::layout::{seq_prod, walks_same};
use crate::util::nd_iter_unordered::{
    axes_shape, axes_sort_by_ranked, axis_range, insertion_index, insertion_sorted_from,
    lemma_insertion_index_bounds, lemma_sorted_axes_walk_same, usize_ints, AxisRank,
};
use crate::util::{lemma_product_from_bounds, packed_strides, product_from};

verus! {

// ---------------------------------------------------------------------------
// Reordering axes keeps them all
// ---------------------------------------------------------------------------

/// The stable insertion sort only reorders: it keeps every element, as often as it occurs.
pub proof fn lemma_insertion_sorted_permutes(
    rank: spec_fn(usize, usize) -> Option<AxisRank>,
    arr: Seq<usize>,
    i: int,
)
    requires
        1 <= i,
    ensures
        insertion_sorted_from(rank, arr, i).len() == arr.len(),
        insertion_sorted_from(rank, arr, i).to_multiset() == arr.to_multiset(),
    decreases arr.len() - i,
{
    if i < arr.len() {
        let q = insertion_index(rank, arr, i, i - 1, i);
        lemma_insertion_index_bounds(rank, arr, i, i - 1, i);
        let next = crate::util::layout::moved(arr, i, q);
        vstd::seq_lib::to_multiset_remove(arr, i);
        vstd::seq_lib::to_multiset_insert(arr.remove(i), q, arr[i]);
        assert(next.to_multiset() =~= arr.to_multiset()) by {
            broadcast use vstd::multiset::group_multiset_axioms;
            broadcast use vstd::seq_lib::group_to_multiset_ensures;
            assert(arr.contains(arr[i]));
            assert(arr.to_multiset().count(arr[i]) > 0);
        }
        lemma_insertion_sorted_permutes(rank, next, i + 1);
    }
}

/// Sorting the axes `0..n` gives every axis exactly once.
pub proof fn lemma_sorted_axes_are_a_permutation(
    rank: spec_fn(usize, usize) -> Option<AxisRank>,
    n: int,
)
    requires
        0 <= n <= usize::MAX,
    ensures
        insertion_sorted_from(rank, axis_range(0, n), 1).len() == n,
        insertion_sorted_from(rank, axis_range(0, n), 1).no_duplicates(),
        forall|k: int|
            0 <= k < n ==> #[trigger] insertion_sorted_from(rank, axis_range(0, n), 1)[k] < n,
        forall|x: usize|
            x < n ==> #[trigger] insertion_sorted_from(rank, axis_range(0, n), 1).contains(x),
{
    let a = axis_range(0, n);
    let s = insertion_sorted_from(rank, a, 1);
    lemma_insertion_sorted_permutes(rank, a, 1);
    assert(a.no_duplicates()) by {
        assert forall|i: int, j: int| 0 <= i < a.len() && 0 <= j < a.len() && i != j implies a[i]
            != a[j] by {
            assert(a[i] as int == i);
            assert(a[j] as int == j);
        }
    }
    a.lemma_multiset_has_no_duplicates();
    assert forall|x: usize| s.to_multiset().contains(x) implies s.to_multiset().count(x) == 1 by {}
    s.lemma_multiset_has_no_duplicates_conv();
    assert forall|k: int| 0 <= k < n implies #[trigger] s[k] < n by {
        vstd::seq_lib::to_multiset_contains(s, s[k]);
        assert(s.contains(s[k]));
        assert(s.to_multiset().count(s[k]) > 0);
        vstd::seq_lib::to_multiset_contains(a, s[k]);
        let j = choose|j: int| 0 <= j < a.len() && a[j] == s[k];
        assert(a[j] < n);
    }
    assert forall|x: usize| x < n implies #[trigger] s.contains(x) by {
        assert(a[x as int] == x);
        assert(a.contains(x));
        vstd::seq_lib::to_multiset_contains(a, x);
        vstd::seq_lib::to_multiset_contains(s, x);
    }
}

/// The volume of the axes from `k` on times the volume of those before is the volume of all.
proof fn lemma_product_from_seq_prod(s: Seq<int>, k: int)
    requires
        0 <= k <= s.len(),
    ensures
        seq_prod(s.take(k)) * product_from(s, k) == seq_prod(s),
    decreases s.len() - k,
{
    if k < s.len() {
        lemma_product_from_seq_prod(s, k + 1);
        assert(s.take(k + 1).drop_last() =~= s.take(k));
        let a = seq_prod(s.take(k));
        let p = product_from(s, k + 1);
        assert(a * (s[k] * p) == (a * s[k]) * p) by (nonlinear_arith);
    } else {
        assert(s.take(k) =~= s);
    }
}

// ---------------------------------------------------------------------------
// Choosing the output layout
// ---------------------------------------------------------------------------

/// The key of axis `d` of an operand with `strides` over a region of `shape`: its stride, or the
/// largest key when the operand does not move along the axis (the axis is at most 1 long, or
/// the stride is 0), so that such axes go outermost.
pub open spec fn layout_key(shape: Seq<usize>, strides: Seq<usize>, d: int) -> int {
    if shape[d] <= 1 || strides[d] == 0 {
        usize::MAX as int
    } else {
        strides[d] as int
    }
}

/// How axis `a` ranks against axis `b` in an operand's layout: the larger key goes outside.
pub open spec fn layout_rank(shape: Seq<usize>, strides: Seq<usize>) -> spec_fn(usize, usize) -> Option<
    AxisRank,
> {
    |a: usize, b: usize|
        if a >= shape.len() || b >= shape.len() {
            None
        } else if layout_key(shape, strides, a as int) > layout_key(shape, strides, b as int) {
            Some(AxisRank::Less)
        } else if layout_key(shape, strides, a as int) == layout_key(shape, strides, b as int) {
            Some(AxisRank::Equal)
        } else {
            Some(AxisRank::Greater)
        }
}

/// An operand's axis order, outermost first: the axes stably sorted by descending key.
pub open spec fn operand_axis_order(shape: Seq<usize>, strides: Seq<usize>) -> Seq<usize> {
    insertion_sorted_from(layout_rank(shape, strides), axis_range(0, shape.len() as int), 1)
}

/// The axis order every operand agrees on, for an output large enough for the order to matter
/// (more than one axis, and more than 4096 bytes); `None` when there is no such order.
pub open spec fn agreed_axis_order(
    shape: Seq<usize>,
    operands: Seq<Seq<usize>>,
    itemsize: int,
) -> Option<Seq<usize>> {
    if shape.len() <= 1 || seq_prod(usize_ints(shape)) * itemsize <= 4096 || operands.len() == 0 {
        None
    } else if forall|o: int|
        0 <= o < operands.len() ==> #[trigger] operand_axis_order(shape, operands[o])
            == operand_axis_order(shape, operands[0]) {
        Some(operand_axis_order(shape, operands[0]))
    } else {
        None
    }
}

/// When two operands order their axes differently, they agree on no order, so the output falls
/// back to row-major.
pub proof fn lemma_disagreeing_operands_agree_on_no_order(
    shape: Seq<usize>,
    operands: Seq<Seq<usize>>,
    itemsize: int,
    o1: int,
    o2: int,
)
    requires
        0 <= o1 < operands.len(),
        0 <= o2 < operands.len(),
        operand_axis_order(shape, operands[o1]) != operand_axis_order(shape, operands[o2]),
    ensures
        agreed_axis_order(shape, operands, itemsize) is None,
{
    if forall|o: int|
        0 <= o < operands.len() ==> #[trigger] operand_axis_order(shape, operands[o])
            == operand_axis_order(shape, operands[0]) {
        assert(operand_axis_order(shape, operands[o1]) == operand_axis_order(shape, operands[0]));
        assert(operand_axis_order(shape, operands[o2]) == operand_axis_order(shape, operands[0]));
    }
}

/// The strides of every operand, as sequences.
pub open spec fn operand_views(strides: Seq<&[usize]>) -> Seq<Seq<usize>> {
    Seq::new(strides.len(), |o: int| strides[o]@)
}

/// The key of axis `d`, as [`layout_key`] states.
fn layout_key_exec(shape: &[usize], strides: &[usize], d: usize) -> (r: usize)
    requires
        d < shape@.len(),
        d < strides@.len(),
    ensures
        r as int == layout_key(shape@, strides@, d as int),
{
    if shape[d] <= 1 || strides[d] == 0 {
        usize::MAX
    } else {
        strides[d]
    }
}

/// An operand's axis order, as [`operand_axis_order`] states.
fn operand_axis_order_exec(shape: &[usize], strides: &[usize]) -> (r: Vec<usize>)
    requires
        strides@.len() == shape@.len(),
    ensures
        r@ == operand_axis_order(shape@, strides@),
{
    let n = shape.len();
    let mut order: Vec<usize> = Vec::new();
    let mut d: usize = 0;
    while d < n
        invariant
            d <= n,
            order@.len() == d,
            forall|e: int| 0 <= e < d ==> #[trigger] order@[e] == e as usize,
        decreases n - d,
    {
        order.push(d);
        d += 1;
    }
    proof {
        assert(order@ =~= axis_range(0, n as int));
    }
    let compare = (|a: usize, b: usize| -> (r: Option<AxisRank>)
        requires
            strides@.len() == shape@.len(),
        ensures
            r == layout_rank(shape@, strides@)(a, b),
        {
            if a >= shape.len() || b >= shape.len() {
                None
            } else {
                let ka = layout_key_exec(shape, strides, a);
                let kb = layout_key_exec(shape, strides, b);
                if ka > kb {
                    Some(AxisRank::Less)
                } else if ka == kb {
                    Some(AxisRank::Equal)
                } else {
                    Some(AxisRank::Greater)
                }
            }
        });
    axes_sort_by_ranked(&mut order, compare, Ghost(layout_rank(shape@, strides@)));
    order
}

/// Two axis orders are the same.
fn same_order(a: &Vec<usize>, b: &Vec<usize>) -> (r: bool)
    ensures
        r == (a@ == b@),
{
    if a.len() != b.len() {
        return false;
    }
    let n = a.len();
    let mut k: usize = 0;
    while k < n
        invariant
            k <= n,
            n == a@.len(),
            n == b@.len(),
            forall|j: int| 0 <= j < k ==> #[trigger] a@[j] == b@[j],
        decreases n - k,
    {
        if a[k] != b[k] {
            return false;
        }
        k += 1;
    }
    proof {
        assert(a@ =~= b@);
    }
    true
}

/// Chooses the byte strides of an output of `shape`, with items of `itemsize` bytes, computed
/// from operands with `operand_strides`: when the output holds more than one axis and more than
/// 4096 bytes and every operand orders its axes alike (by descending stride, axes it does not
/// move along outermost), the output is packed in that order; otherwise it is packed row-major.
pub fn pick_output_layout(operand_strides: &[&[usize]], shape: &[usize], itemsize: usize) -> (r: Vec<
    usize,
>)
    requires
        forall|o: int|
            0 <= o < operand_strides@.len() ==> #[trigger] operand_strides@[o]@.len() == shape@.len(),
        seq_prod(usize_ints(shape@)) <= usize::MAX,
        seq_prod(usize_ints(shape@)) * itemsize <= usize::MAX,
    ensures
        r@.len() == shape@.len(),
        match agreed_axis_order(shape@, operand_views(operand_strides@), itemsize as int) {
            Some(order) => forall|k: int|
                0 <= k < order.len() ==> #[trigger] r@[order[k] as int] as int == packed_strides(
                    axes_shape(usize_ints(shape@), order),
                    itemsize as int,
                )[k],
            None => forall|d: int|
                0 <= d < shape@.len() ==> #[trigger] r@[d] as int == packed_strides(
                    usize_ints(shape@),
                    itemsize as int,
                )[d] % (usize::MAX as int + 1),
        },
        forall|o1: int, o2: int|
            0 <= o1 < operand_strides@.len() && 0 <= o2 < operand_strides@.len()
                && #[trigger] operand_axis_order(shape@, operand_strides@[o1]@)
                != #[trigger] operand_axis_order(shape@, operand_strides@[o2]@) ==> forall|d: int|
                0 <= d < shape@.len() ==> #[trigger] r@[d] as int == packed_strides(
                    usize_ints(shape@),
                    itemsize as int,
                )[d] % (usize::MAX as int + 1),
{
    proof {
        assert forall|o1: int, o2: int|
            0 <= o1 < operand_strides@.len() && 0 <= o2 < operand_strides@.len()
                && #[trigger] operand_axis_order(shape@, operand_strides@[o1]@)
                != #[trigger] operand_axis_order(shape@, operand_strides@[o2]@) implies agreed_axis_order(
            shape@,
            operand_views(operand_strides@),
            itemsize as int,
        ) is None by {
            lemma_disagreeing_operands_agree_on_no_order(
                shape@,
                operand_views(operand_strides@),
                itemsize as int,
                o1,
                o2,
            );
        }
    }
    let n = shape.len();
    let ghost views = operand_views(operand_strides@);
    let ghost sh = usize_ints(shape@);
    let order = pick_axis_order(operand_strides, shape, itemsize);
    match order {
        None => {
            let r = crate::util::default_strides_slice(shape, itemsize);
            proof {
                assert(crate::util::idx_ints(shape@) =~= sh);
                assert forall|d: int| 0 <= d < shape@.len() implies #[trigger] r@[d] as int
                    == packed_strides(sh, itemsize as int)[d] % (usize::MAX as int + 1) by {
                    assert(r@[d].as_int() == packed_strides(
                        crate::util::idx_ints(shape@),
                        itemsize.as_int(),
                    )[d] % <usize as Idx>::modulus());
                }
            }
            r
        },
        Some(order) => {
            let ghost ord = order@;
            let ghost perm = axes_shape(sh, ord);
            proof {
                lemma_sorted_axes_are_a_permutation(layout_rank(shape@, operand_strides@[0]@), n as int);
                let g = lemma_sorted_axes_walk_same(
                    sh,
                    Seq::<Seq<int>>::empty(),
                    layout_rank(shape@, operand_strides@[0]@),
                    axis_range(0, n as int),
                    1,
                );
                assert(axes_shape(sh, axis_range(0, n as int)) =~= sh);
                lemma_product_from_seq_prod(perm, 0);
                assert(perm.take(0) =~= Seq::<int>::empty());
                assert forall|e: int| 0 <= e < n implies #[trigger] sh[e] >= 1 by {
                    if sh[e] == 0 {
                        crate::util::layout::lemma_seq_prod_zero(sh, e);
                    }
                }
                assert forall|k: int| 0 <= k < n implies #[trigger] perm[k] >= 1 by {
                    assert(ord[k] < n);
                    assert(sh[ord[k] as int] >= 1);
                }
            }
            let mut strides: Vec<usize> = Vec::new();
            let mut d: usize = 0;
            while d < n
                invariant
                    d <= n,
                    strides@.len() == d,
                decreases n - d,
            {
                strides.push(itemsize);
                d += 1;
            }
            let mut stride = itemsize;
            let mut k = n;
            while k > 0
                invariant
                    k <= n,
                    n == shape@.len(),
                    sh == usize_ints(shape@),
                    ord == order@,
                    perm == axes_shape(sh, ord),
                    ord.len() == n,
                    ord.no_duplicates(),
                    forall|j: int| 0 <= j < n ==> #[trigger] ord[j] < n,
                    forall|j: int| 0 <= j < n ==> #[trigger] perm[j] >= 1,
                    seq_prod(sh) * itemsize <= usize::MAX,
                    product_from(perm, 0) == seq_prod(sh),
                    strides@.len() == n,
                    stride as int == itemsize * product_from(perm, k as int),
                    forall|j: int|
                        k <= j < n ==> #[trigger] strides@[ord[j] as int] as int == itemsize
                            * product_from(perm, j + 1),
                decreases k,
            {
                k -= 1;
                let dd = order[k];
                let ghost before = strides@;
                strides.set(dd, stride);
                proof {
                    assert forall|j: int| k <= j < n implies #[trigger] strides@[ord[j] as int] as int
                        == itemsize * product_from(perm, j + 1) by {
                        if j > k {
                            assert(ord[j] != ord[k as int]);
                            assert(strides@[ord[j] as int] == before[ord[j] as int]);
                        }
                    }
                    assert(product_from(perm, k as int) == perm[k as int] * product_from(perm, k as int + 1));
                    lemma_product_from_bounds(perm, k as int);
                    let p = product_from(perm, k as int);
                    assert(itemsize * p <= itemsize * seq_prod(sh)) by (nonlinear_arith)
                        requires
                            p <= seq_prod(sh),
                            itemsize >= 0,
                    ;
                    assert(seq_prod(sh) * itemsize == itemsize * seq_prod(sh)) by (nonlinear_arith);
                    assert(perm[k as int] == shape@[dd as int] as int);
                    assert(itemsize * product_from(perm, k as int + 1) * perm[k as int] == itemsize * p)
                        by (nonlinear_arith)
                        requires
                            p == perm[k as int] * product_from(perm, k as int + 1),
                    ;
                }
                stride = stride * shape[dd];
            }
            proof {
                assert forall|j: int| 0 <= j < ord.len() implies #[trigger] strides@[ord[j] as int] as int
                    == packed_strides(perm, itemsize as int)[j] by {}
            }
            strides
        },
    }
}

/// The axis order every operand agrees on, as [`agreed_axis_order`] states.
fn pick_axis_order(operand_strides: &[&[usize]], shape: &[usize], itemsize: usize) -> (r: Option<
    Vec<usize>,
>)
    requires
        forall|o: int|
            0 <= o < operand_strides@.len() ==> #[trigger] operand_strides@[o]@.len() == shape@.len(),
        seq_prod(usize_ints(shape@)) <= usize::MAX,
        seq_prod(usize_ints(shape@)) * itemsize <= usize::MAX,
    ensures
        match agreed_axis_order(shape@, operand_views(operand_strides@), itemsize as int) {
            Some(o) => r matches Some(v) && v@ == o,
            None => r is None,
        },
{
    let n = shape.len();
    let ghost sh = usize_ints(shape@);
    let ghost views = operand_views(operand_strides@);
    if n <= 1 {
        return None;
    }
    // The number of bytes of the output.
    let mut d: usize = 0;
    while d < n
        invariant
            d <= n,
            n == shape@.len(),
            sh == usize_ints(shape@),
            views == operand_views(operand_strides@),
            n > 1,
            forall|e: int| 0 <= e < d ==> #[trigger] shape@[e] != 0,
        decreases n - d,
    {
        if shape[d] == 0 {
            proof {
                assert(sh.len() == n);
                assert(sh[d as int] == 0);
                crate::util::layout::lemma_seq_prod_zero(sh, d as int);
                assert(seq_prod(sh) * itemsize == 0);
            }
            return None;
        }
        d += 1;
    }
    proof {
        assert forall|e: int| 0 <= e < n implies #[trigger] sh[e] >= 1 by {
            assert(shape@[e] != 0);
        }
        assert(sh.take(0) =~= Seq::<int>::empty());
    }
    let mut volume: usize = 1;
    let mut d: usize = 0;
    while d < n
        invariant
            d <= n,
            n == shape@.len(),
            sh == usize_ints(shape@),
            forall|e: int| 0 <= e < n ==> #[trigger] sh[e] >= 1,
            seq_prod(sh) <= usize::MAX,
            seq_prod(sh) * itemsize <= usize::MAX,
            volume as int == seq_prod(sh.take(d as int)),
        decreases n - d,
    {
        proof {
            assert(sh.take(d as int + 1).drop_last() =~= sh.take(d as int));
            lemma_product_from_seq_prod(sh, d as int + 1);
            lemma_product_from_bounds(sh, d as int + 1);
            let a = seq_prod(sh.take(d as int + 1));
            let p = product_from(sh, d as int + 1);
            assert(a >= 0) by {
                crate::util::layout::lemma_seq_prod_pos(sh.take(d as int + 1));
            }
            assert(a <= a * p) by (nonlinear_arith)
                requires
                    p >= 1,
                    a >= 0,
            ;
        }
        volume = volume * shape[d];
        d += 1;
    }
    proof {
        assert(sh.take(n as int) =~= sh);
    }
    if volume * itemsize <= 4096 {
        return None;
    }
    if operand_strides.len() == 0 {
        return None;
    }
    let first = operand_axis_order_exec(shape, operand_strides[0]);
    let mut o: usize = 1;
    while o < operand_strides.len()
        invariant
            1 <= o <= operand_strides@.len(),
            views == operand_views(operand_strides@),
            forall|p: int|
                0 <= p < operand_strides@.len() ==> #[trigger] operand_strides@[p]@.len() == shape@.len(),
            first@ == operand_axis_order(shape@, views[0]),
            forall|p: int|
                0 <= p < o ==> #[trigger] operand_axis_order(shape@, views[p]) == operand_axis_order(
                    shape@,
                    views[0],
                ),
        decreases operand_strides.len() - o,
    {
        let ord = operand_axis_order_exec(shape, operand_strides[o]);
        if !same_order(&ord, &first) {
            proof {
                assert(views[o as int] == operand_strides@[o as int]@);
                assert(operand_axis_order(shape@, views[o as int]) != operand_axis_order(
                    shape@,
                    views[0],
                ));
            }
            return None;
        }
        o += 1;
    }
    Some(first)
}

// ---------------------------------------------------------------------------
// Counting leaf operands
// ---------------------------------------------------------------------------

/// The sum of the known counts among the first `k`.
pub open spec fn known_sum(counts: Seq<Option<usize>>, k: int) -> int
    decreases k,
{
    if k <= 0 {
        0
    } else {
        known_sum(counts, k - 1) + match counts[k - 1] {
            Some(c) => c as int,
            None => 0int,
        }
    }
}

/// The total number of leaf operands of several parts, or `None` when the count of some part is
/// not known.
pub fn n_operands_sum(counts: &[Option<usize>]) -> (r: Option<usize>)
    requires
        forall|k: int|
            0 <= k <= counts@.len() && (forall|j: int| 0 <= j < k ==> #[trigger] counts@[j] is Some)
                ==> #[trigger] known_sum(counts@, k) <= usize::MAX,
    ensures
        r is Some <==> forall|i: int| 0 <= i < counts@.len() ==> #[trigger] counts@[i] is Some,
        r matches Some(t) ==> t == known_sum(counts@, counts@.len() as int),
{
    let mut total: usize = 0;
    let mut i: usize = 0;
    while i < counts.len()
        invariant
            i <= counts@.len(),
            forall|k: int|
                0 <= k <= counts@.len() && (forall|j: int| 0 <= j < k ==> #[trigger] counts@[j] is Some)
                    ==> #[trigger] known_sum(counts@, k) <= usize::MAX,
            total == known_sum(counts@, i as int),
            forall|j: int| 0 <= j < i ==> #[trigger] counts@[j] is Some,
        decreases counts.len() - i,
    {
        proof {
            if counts@[i as int] is Some {
                assert(forall|j: int| 0 <= j < i + 1 ==> #[trigger] counts@[j] is Some);
                assert(known_sum(counts@, i as int + 1) <= usize::MAX);
            }
        }
        match counts[i] {
            Some(n) => total = total + n,
            None => return None,
        }
        i += 1;
    }
    Some(total)
}

/// `n` copies of a part with `count` leaf operands, or `None` when the count is not known.
pub fn n_operands_mul(count: Option<usize>, n: usize) -> (r: Option<usize>)
    requires
        count matches Some(c) ==> c * n <= usize::MAX,
    ensures
        r == match count {
            Some(c) => Some((c * n) as usize),
            None => None,
        },
{
    match count {
        Some(count) => Some(count * n),
        None => None,
    }
}

// ---------------------------------------------------------------------------
// Scheduling a pipeline run
// ---------------------------------------------------------------------------

/// The most elements a pipeline processes at once: the capacity, in elements, of a staging
/// buffer.
pub const STAGING_BUFFER_SIZE: usize = 8192;

/// Whether the inputs and the output of an inner loop step through memory one element after
/// another.
#[derive(Clone, Copy, Debug, PartialEq, Eq, Structural)]
pub struct InnerLoopFlags {
    pub inputs_contiguous: bool,
    pub output_contiguous: bool,
}

/// How the operands of a pipeline run (operand 0 is the output) are accessed: which are staged
/// through a scratch buffer, and the flags of the inner loop.
///
/// An operand is staged unless its strides are aligned (`aligned`) and its base is too
/// (`base_aligned`). A staged operand is read or written straight out of its scratch buffer, so
/// it counts as contiguous whatever its strides (`contiguous`) say.
pub fn staging_plan(aligned: &[bool], base_aligned: &[bool], contiguous: &[bool]) -> (r: (
    Vec<bool>,
    InnerLoopFlags,
))
    requires
        aligned@.len() >= 1,
        base_aligned@.len() == aligned@.len(),
        contiguous@.len() == aligned@.len(),
    ensures
        r.0@.len() == aligned@.len(),
        forall|i: int| 0 <= i < aligned@.len() ==> #[trigger] r.0@[i] == !(aligned@[i] && base_aligned@[i]),
        r.1.inputs_contiguous == forall|i: int|
            1 <= i < aligned@.len() ==> #[trigger] contiguous@[i] || r.0@[i],
        r.1.output_contiguous == (contiguous@[0] || r.0@[0]),
{
    let n = aligned.len();
    let mut staged: Vec<bool> = Vec::new();
    let mut i: usize = 0;
    while i < n
        invariant
            i <= n,
            n == aligned@.len(),
            n == base_aligned@.len(),
            staged@.len() == i,
            forall|j: int| 0 <= j < i ==> #[trigger] staged@[j] == !(aligned@[j] && base_aligned@[j]),
        decreases n - i,
    {
        staged.push(!(aligned[i] && base_aligned[i]));
        i += 1;
    }
    let mut inputs_contiguous = true;
    let mut i: usize = 1;
    while i < n
        invariant
            1 <= i <= n,
            n == aligned@.len(),
            n == contiguous@.len(),
            staged@.len() == n,
            inputs_contiguous == forall|j: int| 1 <= j < i ==> #[trigger] contiguous@[j] || staged@[j],
        decreases n - i,
    {
        let ghost before = inputs_contiguous;
        inputs_contiguous = inputs_contiguous && (contiguous[i] || staged[i]);
        proof {
            if !before {
                let w = choose|j: int| !(1 <= j < i ==> #[trigger] contiguous@[j] || staged@[j]);
                assert(!(contiguous@[w] || staged@[w]));
            }
        }
        i += 1;
    }
    let flags = InnerLoopFlags { inputs_contiguous, output_contiguous: contiguous[0] || staged[0] };
    (staged, flags)
}

/// The number of elements of an inner run processed at once: the run's length, up to the
/// capacity of a staging buffer.
pub fn chunk_len_max(inner_len: usize) -> (r: usize)
    ensures
        r == if inner_len < STAGING_BUFFER_SIZE {
            inner_len
        } else {
            STAGING_BUFFER_SIZE
        },
{
    if inner_len < STAGING_BUFFER_SIZE {
        inner_len
    } else {
        STAGING_BUFFER_SIZE
    }
}

/// The number of elements in chunk `k` of a run of `len` elements in chunks of up to `m`.
pub open spec fn chunk_length(len: int, m: int, k: int) -> int {
    if len - k * m < m {
        len - k * m
    } else {
        m
    }
}

/// The chunk, of chunks of `m` elements, that holds element `p`.
pub open spec fn chunk_holding(p: int, m: int) -> int {
    p / m
}

/// The chunks of a run of `len` elements, in order, as `(position, length)`: chunk `k` starts at
/// `k * chunk_len_max` and holds up to `chunk_len_max` elements. Every element of the run lies in
/// exactly one chunk, chunk `p / chunk_len_max`.
pub fn run_chunks(len: usize, chunk_len_max: usize) -> (r: Vec<(usize, usize)>)
    requires
        chunk_len_max > 0,
    ensures
        r@.len() == (len + chunk_len_max - 1) / chunk_len_max as int,
        forall|k: int|
            0 <= k < r@.len() ==> #[trigger] r@[k].0 == k * chunk_len_max && r@[k].1 == chunk_length(
                len as int,
                chunk_len_max as int,
                k,
            ),
        forall|p: int|
            0 <= p < len ==> r@[#[trigger] chunk_holding(p, chunk_len_max as int)].0 <= p < r@[chunk_holding(
                p,
                chunk_len_max as int,
            )].0 + r@[chunk_holding(p, chunk_len_max as int)].1,
{
    let m = chunk_len_max;
    let n = if len == 0 {
        0
    } else {
        (len - 1) / m + 1
    };
    proof {
        lemma_chunk_count(len as int, m as int);
    }
    let mut chunks: Vec<(usize, usize)> = Vec::new();
    let mut k: usize = 0;
    while k < n
        invariant
            k <= n,
            n as int == (len + m - 1) / m as int,
            m > 0,
            forall|j: int| 0 <= j < n ==> #[trigger] (j * m) < len,
            chunks@.len() == k,
            forall|j: int|
                0 <= j < k ==> #[trigger] chunks@[j].0 == j * m && chunks@[j].1 == chunk_length(
                    len as int,
                    m as int,
                    j,
                ),
        decreases n - k,
    {
        proof {
            assert((k as int * m) < len);
        }
        let pos = k * m;
        let rest = len - pos;
        let l = if rest < m {
            rest
        } else {
            m
        };
        chunks.push((pos, l));
        k += 1;
    }
    proof {
        assert forall|p: int| 0 <= p < len implies chunks@[#[trigger] chunk_holding(p, m as int)].0
            <= p < chunks@[chunk_holding(p, m as int)].0 + chunks@[chunk_holding(p, m as int)].1 by {
            let mi = m as int;
            vstd::arithmetic::div_mod::lemma_fundamental_div_mod(p, mi);
            let q = p / mi;
            vstd::arithmetic::div_mod::lemma_div_pos_is_pos(p, mi);
            assert(q * mi <= p < q * mi + mi) by (nonlinear_arith)
                requires
                    mi * q + p % mi == p,
                    0 <= p % mi < mi,
            ;
            lemma_chunk_count(len as int, mi);
            assert(q < n) by (nonlinear_arith)
                requires
                    q * mi <= p,
                    p < len,
                    n * mi >= len,
                    mi > 0,
            ;
        }
    }
    chunks
}

/// `ceil(len / m)` chunks of `m` elements cover `len` elements, and each starts below `len`.
proof fn lemma_chunk_count(len: int, m: int)
    requires
        len >= 0,
        m > 0,
    ensures
        (if len == 0 {
            0
        } else {
            (len - 1) / m + 1
        }) == (len + m - 1) / m,
        ((len + m - 1) / m) * m >= len,
        forall|j: int| 0 <= j < (len + m - 1) / m ==> #[trigger] (j * m) < len,
{
    let n = (len + m - 1) / m;
    vstd::arithmetic::div_mod::lemma_fundamental_div_mod(len + m - 1, m);
    if len == 0 {
        vstd::arithmetic::div_mod::lemma_small_div_converse(m - 1, m);
        assert(n == 0) by (nonlinear_arith)
            requires
                m * n + (m - 1) % m == m - 1,
                0 <= (m - 1) % m < m,
                m > 0,
        ;
    } else {
        let q = (len - 1) / m;
        let r = (len - 1) % m;
        vstd::arithmetic::div_mod::lemma_fundamental_div_mod(len - 1, m);
        assert(len + m - 1 == (q + 1) * m + r) by (nonlinear_arith)
            requires
                len - 1 == m * q + r,
        ;
        vstd::arithmetic::div_mod::lemma_fundamental_div_mod_converse(len + m - 1, m, q + 1, r);
    }
    assert(n * m >= len) by (nonlinear_arith)
        requires
            m * n + (len + m - 1) % m == len + m - 1,
            0 <= (len + m - 1) % m < m,
    ;
    assert forall|j: int| 0 <= j < n implies #[trigger] (j * m) < len by {
        assert(j * m < len) by (nonlinear_arith)
            requires
                0 <= j < n,
                m * n + (len + m - 1) % m == len + m - 1,
                0 <= (len + m - 1) % m < m,
                m > 0,
        ;
    }
}


/// Each operand's cursor at position `pos` of a run that starts at `run` and steps by
/// `inner_strides`: `run[o] + pos * inner_strides[o]`, modulo `usize`'s range.
fn chunk_offsets(run: &Vec<usize>, pos: usize, inner_strides: &[usize]) -> (r: Vec<usize>)
    requires
        run@.len() == inner_strides@.len(),
    ensures
        r@.len() == run@.len(),
        forall|o: int|
            0 <= o < r@.len() ==> #[trigger] r@[o] as int == (run@[o] + pos * inner_strides@[o]) % (
            usize::MAX as int + 1),
{
    let n = run.len();
    let mut r: Vec<usize> = Vec::new();
    let mut o: usize = 0;
    while o < n
        invariant
            o <= n,
            n == run@.len(),
            n == inner_strides@.len(),
            r@.len() == o,
            forall|j: int|
                0 <= j < o ==> #[trigger] r@[j] as int == (run@[j] + pos * inner_strides@[j]) % (
                usize::MAX as int + 1),
        decreases n - o,
    {
        let step = pos.mul_wrapping(inner_strides[o]);
        let at = run[o].add_wrapping(step);
        proof {
            let m = usize::MAX as int + 1;
            vstd::arithmetic::div_mod::lemma_add_mod_noop(run@[o as int] as int, pos * inner_strides@[o as int], m);
            vstd::arithmetic::div_mod::lemma_small_mod(run@[o as int] as nat, m as nat);
        }
        r.push(at);
        o += 1;
    }
    r
}

/// The chunks an element-wise pipeline works through: for every run of the walk, starting at
/// `runs[i]` (one offset per operand) and `inner_len` elements long with `inner_strides`, its
/// chunks of up to `chunk_len_max` elements in order, each as the operands' cursors at the
/// chunk's first element and the chunk's length.
pub fn chunk_cursors(
    runs: &Vec<Vec<usize>>,
    inner_len: usize,
    inner_strides: &[usize],
    chunk_len_max: usize,
) -> (r: Vec<Vec<(Vec<usize>, usize)>>)
    requires
        chunk_len_max > 0,
        forall|i: int| 0 <= i < runs@.len() ==> #[trigger] runs@[i]@.len() == inner_strides@.len(),
    ensures
        r@.len() == runs@.len(),
        forall|i: int|
            0 <= i < r@.len() ==> #[trigger] r@[i]@.len() == (inner_len + chunk_len_max - 1)
                / chunk_len_max as int,
        forall|i: int, k: int|
            0 <= i < r@.len() && 0 <= k < r@[i]@.len() ==> {
                &&& (#[trigger] r@[i]@[k]).1 == chunk_length(inner_len as int, chunk_len_max as int, k)
                &&& r@[i]@[k].0@.len() == inner_strides@.len()
                &&& forall|o: int|
                    0 <= o < inner_strides@.len() ==> #[trigger] r@[i]@[k].0@[o] as int == (runs@[i]@[o]
                        + k * chunk_len_max * inner_strides@[o]) % (usize::MAX as int + 1)
            },
{
    let chunks = run_chunks(inner_len, chunk_len_max);
    let nch = chunks.len();
    let mut out: Vec<Vec<(Vec<usize>, usize)>> = Vec::new();
    let mut i: usize = 0;
    while i < runs.len()
        invariant
            i <= runs@.len(),
            chunk_len_max > 0,
            nch == chunks@.len(),
            nch == (inner_len + chunk_len_max - 1) / chunk_len_max as int,
            forall|k: int|
                0 <= k < nch ==> #[trigger] chunks@[k].0 == k * chunk_len_max && chunks@[k].1
                    == chunk_length(inner_len as int, chunk_len_max as int, k),
            forall|j: int| 0 <= j < runs@.len() ==> #[trigger] runs@[j]@.len() == inner_strides@.len(),
            out@.len() == i,
            forall|j: int| 0 <= j < i ==> #[trigger] out@[j]@.len() == nch,
            forall|j: int, k: int|
                0 <= j < i && 0 <= k < nch ==> {
                    &&& (#[trigger] out@[j]@[k]).1 == chunk_length(inner_len as int, chunk_len_max as int, k)
                    &&& out@[j]@[k].0@.len() == inner_strides@.len()
                    &&& forall|o: int|
                        0 <= o < inner_strides@.len() ==> #[trigger] out@[j]@[k].0@[o] as int == (
                        runs@[j]@[o] + k * chunk_len_max * inner_strides@[o]) % (usize::MAX as int + 1)
                },
        decreases runs@.len() - i,
    {
        let mut row: Vec<(Vec<usize>, usize)> = Vec::new();
        let mut k: usize = 0;
        while k < nch
            invariant
                k <= nch,
                i < runs@.len(),
                nch == chunks@.len(),
                forall|kk: int|
                    0 <= kk < nch ==> #[trigger] chunks@[kk].0 == kk * chunk_len_max && chunks@[kk].1
                        == chunk_length(inner_len as int, chunk_len_max as int, kk),
                runs@[i as int]@.len() == inner_strides@.len(),
                row@.len() == k,
                forall|kk: int|
                    0 <= kk < k ==> {
                        &&& (#[trigger] row@[kk]).1 == chunk_length(inner_len as int, chunk_len_max as int, kk)
                        &&& row@[kk].0@.len() == inner_strides@.len()
                        &&& forall|o: int|
                            0 <= o < inner_strides@.len() ==> #[trigger] row@[kk].0@[o] as int == (
                            runs@[i as int]@[o] + kk * chunk_len_max * inner_strides@[o]) % (usize::MAX as int
                                + 1)
                    },
            decreases nch - k,
        {
            let (pos, len) = chunks[k];
            let offs = chunk_offsets(&runs[i], pos, inner_strides);
            proof {
                assert forall|o: int| 0 <= o < inner_strides@.len() implies pos * inner_strides@[o]
                    == k * chunk_len_max * inner_strides@[o] by {
                    assert(pos == k * chunk_len_max);
                }
            }
            row.push((offs, len));
            k += 1;
        }
        out.push(row);
        i += 1;
    }
    out
}

} // verus!

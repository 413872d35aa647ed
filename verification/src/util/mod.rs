pub mod alternating;
pub mod arrayvec;
pub mod bitmap;
pub mod hint;
pub mod idx;
pub mod layout;
pub mod nd_copy;
pub mod nd_iter_unordered;
pub mod iter;

use vstd::prelude::*;
use crate::util::idx::Idx;

verus! {

/// The index of a dimension.
pub type DimIdx = u8;

// ---------------------------------------------------------------------------
// Strided layouts
// ---------------------------------------------------------------------------

/// The mathematical values of a sequence of indices.
pub open spec fn idx_ints<S: Idx>(s: Seq<S>) -> Seq<int> {
    Seq::new(s.len(), |d: int| s[d].as_int())
}

/// `sum over d >= k of disp[d] * strides[d]`.
pub open spec fn linear_from(strides: Seq<int>, disp: Seq<int>, k: int) -> int
    decreases strides.len() - k,
{
    if 0 <= k < strides.len() {
        disp[k] * strides[k] + linear_from(strides, disp, k + 1)
    } else {
        0
    }
}

/// The offset of the element at displacement `disp` in a layout with the given `strides`:
/// `sum_d disp[d] * strides[d]`.
pub open spec fn linear_offset(strides: Seq<int>, disp: Seq<int>) -> int {
    linear_from(strides, disp, 0)
}

/// `product over d >= k of shape[d]`.
pub open spec fn product_from(shape: Seq<int>, k: int) -> int
    decreases shape.len() - k,
{
    if 0 <= k < shape.len() {
        shape[k] * product_from(shape, k + 1)
    } else {
        1
    }
}

/// The product of the first `k` entries of `s`.
pub open spec fn prefix_product(s: Seq<int>, k: int) -> int
    decreases k,
{
    if k <= 0 {
        1
    } else {
        prefix_product(s, k - 1) * s[k - 1]
    }
}

pub proof fn lemma_prefix_product_pos(s: Seq<int>, k: int)
    requires
        k <= s.len(),
        forall|d: int| 0 <= d < s.len() ==> s[d] >= 1,
    ensures
        prefix_product(s, k) >= 1,
    decreases k,
{
    if k > 0 {
        lemma_prefix_product_pos(s, k - 1);
        assert(prefix_product(s, k - 1) * s[k - 1] >= 1) by (nonlinear_arith)
            requires
                s[k - 1] >= 1,
                prefix_product(s, k - 1) >= 1,
        ;
    }
}

pub proof fn lemma_prefix_product_ones(s: Seq<int>, k: int)
    requires
        k <= s.len(),
        forall|d: int| 0 <= d < s.len() ==> s[d] == 1,
    ensures
        prefix_product(s, k) == 1,
    decreases k,
{
    if k > 0 {
        lemma_prefix_product_ones(s, k - 1);
    }
}

pub proof fn lemma_prefix_product_mono(s: Seq<int>, i: int, j: int)
    requires
        0 <= i <= j <= s.len(),
        forall|d: int| 0 <= d < s.len() ==> s[d] >= 1,
    ensures
        1 <= prefix_product(s, i) <= prefix_product(s, j),
    decreases j - i,
{
    lemma_prefix_product_pos(s, i);
    if i < j {
        lemma_prefix_product_mono(s, i, j - 1);
        lemma_prefix_product_pos(s, j - 1);
        assert(prefix_product(s, j - 1) <= prefix_product(s, j - 1) * s[j - 1]) by (nonlinear_arith)
            requires
                s[j - 1] >= 1,
                prefix_product(s, j - 1) >= 1,
        ;
    }
}

/// With every axis at least 1 long, the volume of the axes from `k` on is at least 1 and at
/// most the volume of all the axes.
pub proof fn lemma_product_from_bounds(sh: Seq<int>, k: int)
    requires
        0 <= k <= sh.len(),
        forall|d: int| 0 <= d < sh.len() ==> #[trigger] sh[d] >= 1,
    ensures
        1 <= product_from(sh, k) <= product_from(sh, 0),
    decreases k,
{
    if k > 0 {
        lemma_product_from_bounds(sh, k - 1);
        let p = product_from(sh, k);
        lemma_product_from_pos(sh, k);
        assert(product_from(sh, k - 1) == sh[k - 1] * p);
        assert(p <= sh[k - 1] * p) by (nonlinear_arith)
            requires
                sh[k - 1] >= 1,
                p >= 1,
        ;
    } else {
        lemma_product_from_pos(sh, 0);
    }
}

/// With every axis at least 1 long, the volume of the axes from `k` on is at least 1.
pub proof fn lemma_product_from_pos(sh: Seq<int>, k: int)
    requires
        0 <= k,
        forall|d: int| 0 <= d < sh.len() ==> #[trigger] sh[d] >= 1,
    ensures
        product_from(sh, k) >= 1,
    decreases sh.len() - k,
{
    if k < sh.len() {
        lemma_product_from_pos(sh, k + 1);
        let p = product_from(sh, k + 1);
        assert(sh[k] * p >= 1) by (nonlinear_arith)
            requires
                sh[k] >= 1,
                p >= 1,
        ;
    }
}

/// The row-major (C-order) packed strides of `shape` for elements of `itemsize` units:
/// `strides[d] = itemsize * product(shape[d + 1..])`.
pub open spec fn packed_strides(shape: Seq<int>, itemsize: int) -> Seq<int> {
    Seq::new(shape.len(), |d: int| itemsize * product_from(shape, d + 1))
}

/// Changing one displacement moves the offset by the change times that axis' stride.
pub proof fn lemma_linear_update(strides: Seq<int>, disp: Seq<int>, j: int, v: int, k: int)
    requires
        0 <= k,
        0 <= j < strides.len(),
        disp.len() == strides.len(),
    ensures
        k <= j ==> linear_from(strides, disp.update(j, v), k) == linear_from(strides, disp, k) + (v
            - disp[j]) * strides[j],
        k > j ==> linear_from(strides, disp.update(j, v), k) == linear_from(strides, disp, k),
    decreases strides.len() - k,
{
    if k < strides.len() {
        lemma_linear_update(strides, disp, j, v, k + 1);
        if k == j {
            assert(v * strides[j] == disp[j] * strides[j] + (v - disp[j]) * strides[j])
                by (nonlinear_arith);
        }
    }
}

/// The offset of the origin is zero.
pub proof fn lemma_linear_zero(strides: Seq<int>, disp: Seq<int>, k: int)
    requires
        0 <= k,
        forall|d: int| 0 <= d < disp.len() ==> disp[d] == 0,
        disp.len() == strides.len(),
    ensures
        linear_from(strides, disp, k) == 0,
    decreases strides.len() - k,
{
    if k < strides.len() {
        lemma_linear_zero(strides, disp, k + 1);
    }
}

/// `(x + d * s) % m`, computed from `x % m` and `(d % m * s) % m`.
pub proof fn lemma_mod_step(x: int, d: int, s: int, m: int)
    requires
        m > 0,
    ensures
        ((x % m) + ((d % m) * s) % m) % m == (x + d * s) % m,
        ((x % m) - ((d % m) * s) % m) % m == (x - d * s) % m,
{
    vstd::arithmetic::div_mod::lemma_mul_mod_noop_left(d, s, m);
    vstd::arithmetic::div_mod::lemma_add_mod_noop(x, (d % m) * s, m);
    vstd::arithmetic::div_mod::lemma_add_mod_noop(x, d * s, m);
    vstd::arithmetic::div_mod::lemma_sub_mod_noop(x, (d % m) * s, m);
    vstd::arithmetic::div_mod::lemma_sub_mod_noop(x, d * s, m);
}

/// The row-major packed strides of `shape` for elements of `itemsize` units, computed modulo
/// `Ix::modulus()`.
pub fn default_strides_slice<Ix: Idx>(shape: &[Ix], itemsize: Ix) -> (r: Vec<Ix>)
    ensures
        r@.len() == shape@.len(),
        forall|d: int|
            0 <= d < shape@.len() ==> #[trigger] r@[d].as_int() == packed_strides(
                idx_ints(shape@),
                itemsize.as_int(),
            )[d] % Ix::modulus(),
{
    let ndim = shape.len();
    let ghost sh = idx_ints(shape@);
    let mut strides: Vec<Ix> = Vec::new();
    let mut i: usize = 0;
    while i < ndim
        invariant
            i <= ndim,
            ndim == shape@.len(),
            strides@.len() == i,
            forall|d: int| 0 <= d < i ==> #[trigger] strides@[d] == itemsize,
        decreases ndim - i,
    {
        strides.push(itemsize);
        i += 1;
    }
    proof {
        itemsize.lemma_range();
        if ndim > 0 {
            vstd::arithmetic::div_mod::lemma_small_mod(itemsize.as_int() as nat, Ix::modulus() as nat);
            assert(product_from(sh, ndim as int) == 1);
        }
    }
    let mut dim = if ndim > 0 { ndim - 1 } else { 0 };
    while dim > 0
        invariant
            ndim == shape@.len(),
            sh == idx_ints(shape@),
            strides@.len() == ndim,
            dim == 0 || dim < ndim,
            forall|d: int|
                dim <= d < ndim ==> #[trigger] strides@[d].as_int() == packed_strides(
                    sh,
                    itemsize.as_int(),
                )[d] % Ix::modulus(),
        decreases dim,
    {
        let next = strides[dim].mul_wrapping(shape[dim]);
        proof {
            let p = product_from(sh, dim as int + 1);
            let m = Ix::modulus();
            itemsize.lemma_range();
            vstd::arithmetic::div_mod::lemma_mul_mod_noop_left(
                itemsize.as_int() * p,
                sh[dim as int],
                m,
            );
            assert(itemsize.as_int() * p * sh[dim as int] == itemsize.as_int() * (sh[dim as int]
                * p)) by (nonlinear_arith);
        }
        strides.set(dim - 1, next);
        dim -= 1;
    }
    strides
}

/// The row-major packed strides of `shape` counted in elements (`itemsize` 1).
pub fn default_logical_strides_slice<Ix: Idx>(shape: &[Ix]) -> (r: Vec<Ix>)
    ensures
        r@.len() == shape@.len(),
        forall|d: int|
            0 <= d < shape@.len() ==> #[trigger] r@[d].as_int() == packed_strides(
                idx_ints(shape@),
                1,
            )[d] % Ix::modulus(),
{
    default_strides_slice(shape, Ix::one())
}

/// The smallest power of two `>= x`, searching upwards from `p`.
pub open spec fn next_power_of_two_from(x: int, p: int) -> int
    decreases (if x > p { x - p } else { 0 }),
{
    if p >= x || p <= 0 {
        p
    } else {
        next_power_of_two_from(x, 2 * p)
    }
}

pub proof fn lemma_next_power_of_two(x: int, p: int)
    requires
        x >= 1,
        p >= 1,
        p < 2 * x,
    ensures
        x <= next_power_of_two_from(x, p) < 2 * x,
        next_power_of_two_from(x, p) >= p,
    decreases (if x > p { x - p } else { 0 }),
{
    if p < x {
        lemma_next_power_of_two(x, 2 * p);
    }
}

/// The smallest power of two `>= x`.
pub fn next_power_of_two(x: u64) -> (r: u64)
    requires
        1 <= x <= 0x4000_0000_0000_0000,
    ensures
        r == next_power_of_two_from(x as int, 1),
        x <= r < 2 * x,
{
    proof {
        lemma_next_power_of_two(x as int, 1);
    }
    let mut p: u64 = 1;
    while p < x
        invariant
            1 <= p < 2 * x,
            x <= 0x4000_0000_0000_0000,
            next_power_of_two_from(x as int, p as int) == next_power_of_two_from(x as int, 1),
        decreases (if p < x { x - p } else { 0 }),
    {
        p = p * 2;
    }
    p
}

/// The values of a sequence of extents.
pub open spec fn extent_ints(s: Seq<u64>) -> Seq<int> {
    Seq::new(s.len(), |d: int| s[d] as int)
}

// ---------------------------------------------------------------------------
// Block ranges and strided spans
// ---------------------------------------------------------------------------

/// One past the last block touched by the item range `begin..end` split into blocks of
/// `block_size` items: `ceil(end / block_size)`, except that an empty range touches no block and
/// ends at the block of `begin`, `end / block_size`.
pub fn calc_block_end(begin: u64, end: u64, block_size: u64) -> (r: u64)
    requires
        begin <= end,
        block_size > 0,
    ensures
        r == if begin == end {
            end as int / block_size as int
        } else {
            (end + block_size - 1) / (block_size as int)
        },
{
    if begin == end {
        end / block_size
    } else {
        Idx::div_ceil(end, block_size)
    }
}

/// The byte span `itemsize + sum_{d < k} strides[d] * (shape[d] - 1)` of the first `k` dimensions.
pub open spec fn span_prefix(shape: Seq<usize>, strides: Seq<usize>, itemsize: int, k: int) -> int
    decreases k,
{
    if k <= 0 {
        itemsize
    } else {
        span_prefix(shape, strides, itemsize, k - 1) + strides[k - 1] * (shape[k - 1] - 1)
    }
}

/// The number of dimensions the span is taken over: those `shape` and `strides` both have.
pub open spec fn span_ndim(shape: Seq<usize>, strides: Seq<usize>) -> int {
    if shape.len() <= strides.len() {
        shape.len() as int
    } else {
        strides.len() as int
    }
}

/// The largest byte offset touched, plus one element, of the region `shape` with byte `strides`
/// and elements of `itemsize` bytes: 0 for an empty region.
pub open spec fn strided_span(shape: Seq<usize>, strides: Seq<usize>, itemsize: int) -> int {
    let n = span_ndim(shape, strides);
    if exists|d: int| 0 <= d < n && shape[d] == 0 {
        0
    } else {
        span_prefix(shape, strides, itemsize, n)
    }
}

/// The running span stays within `usize` up to the first empty dimension.
pub open spec fn span_fits(shape: Seq<usize>, strides: Seq<usize>, itemsize: int) -> bool {
    forall|k: int|
        0 < k <= span_ndim(shape, strides) && (forall|d: int| 0 <= d < k ==> shape[d] != 0) ==> #[trigger] span_prefix(
            shape,
            strides,
            itemsize,
            k,
        ) <= usize::MAX
}

/// The byte span of a strided region, as [`strided_span`] states.
pub fn strided_span_bytes(shape: &[usize], strides: &[usize], itemsize: usize) -> (r: usize)
    requires
        span_fits(shape@, strides@, itemsize as int),
    ensures
        r == strided_span(shape@, strides@, itemsize as int),
{
    let n = if shape.len() <= strides.len() { shape.len() } else { strides.len() };
    let mut span = itemsize;
    let mut d: usize = 0;
    while d < n
        invariant
            d <= n,
            n == span_ndim(shape@, strides@),
            span_fits(shape@, strides@, itemsize as int),
            forall|e: int| 0 <= e < d ==> shape@[e] != 0,
            span == span_prefix(shape@, strides@, itemsize as int, d as int),
        decreases n - d,
    {
        if shape[d] == 0 {
            return 0;
        }
        assert(span_prefix(shape@, strides@, itemsize as int, d as int + 1) <= usize::MAX);
        assert(span_prefix(shape@, strides@, itemsize as int, d as int) >= 0) by {
            lemma_span_prefix_nonneg(shape@, strides@, itemsize as int, d as int);
        }
        assert(strides[d as int] * (shape[d as int] - 1) >= 0) by (nonlinear_arith)
            requires
                shape[d as int] >= 1,
        ;
        span = span + strides[d] * (shape[d] - 1);
        d += 1;
    }
    span
}

proof fn lemma_span_prefix_nonneg(shape: Seq<usize>, strides: Seq<usize>, itemsize: int, k: int)
    requires
        itemsize >= 0,
        0 <= k <= span_ndim(shape, strides),
        forall|d: int| 0 <= d < k ==> shape[d] != 0,
    ensures
        span_prefix(shape, strides, itemsize, k) >= 0,
    decreases k,
{
    if k > 0 {
        lemma_span_prefix_nonneg(shape, strides, itemsize, k - 1);
        assert(strides[k - 1] * (shape[k - 1] - 1) >= 0) by (nonlinear_arith)
            requires
                shape[k - 1] >= 1,
        ;
    }
}

// ---------------------------------------------------------------------------
// Read-shape scaling
// ---------------------------------------------------------------------------

/// `x`, or 1 when `x` is below 1.
pub open spec fn at_least_one(x: int) -> int {
    if x >= 1 {
        x
    } else {
        1
    }
}

/// The smaller of `a` and `b`.
pub open spec fn min_int(a: int, b: int) -> int {
    if a <= b {
        a
    } else {
        b
    }
}

/// The read shape after clamping each of the first `k` dims of `order` into
/// `[1, max(max_shape[d], 1)]`.
pub open spec fn clamp_read_dims(rs: Seq<int>, max_shape: Seq<int>, order: Seq<usize>, k: int) -> Seq<
    int,
>
    decreases k,
{
    if k <= 0 || k > order.len() {
        rs
    } else {
        let s = clamp_read_dims(rs, max_shape, order, k - 1);
        let d = order[k - 1] as int;
        let hi = at_least_one(max_shape[d]);
        s.update(d, if s[d] < 1 { 1 } else if s[d] > hi { hi } else { s[d] })
    }
}

/// The read shape after capping each of the first `k` dims of `order` at `bound` and at
/// `max(max_shape[d], 1)`, keeping it at least 1.
pub open spec fn cap_read_dims(
    rs: Seq<int>,
    max_shape: Seq<int>,
    order: Seq<usize>,
    bound: int,
    k: int,
) -> Seq<int>
    decreases k,
{
    if k <= 0 || k > order.len() {
        rs
    } else {
        let s = cap_read_dims(rs, max_shape, order, bound, k - 1);
        let d = order[k - 1] as int;
        s.update(d, at_least_one(min_int(min_int(s[d], bound), at_least_one(max_shape[d]))))
    }
}

/// The balanced scale-down: cap the ordered dims at `bound`, halving `bound` until half the
/// read volume is within `max_nitems` or `bound` reaches 1.
pub open spec fn balanced_read_shape(
    rs: Seq<int>,
    max_shape: Seq<int>,
    order: Seq<usize>,
    max_nitems: int,
    bound: int,
) -> Seq<int>
    decreases bound,
{
    let c = cap_read_dims(rs, max_shape, order, bound, order.len() as int);
    if prefix_product(c, c.len() as int) / 2 <= max_nitems || bound <= 1 {
        c
    } else {
        balanced_read_shape(c, max_shape, order, max_nitems, at_least_one(bound / 2))
    }
}

/// The read shape after growing each of the first `k` dims of `order`, in turn, by the largest
/// integer multiple that keeps the volume within `min_nitems` and the dim within its range (at
/// least by 1), and at most to `max(max_shape[d], 1)`.
pub open spec fn grow_read_dims(
    rs: Seq<int>,
    max_shape: Seq<int>,
    order: Seq<usize>,
    min_nitems: int,
    k: int,
) -> Seq<int>
    decreases k,
{
    if k <= 0 || k > order.len() {
        rs
    } else {
        let s = grow_read_dims(rs, max_shape, order, min_nitems, k - 1);
        let d = order[k - 1] as int;
        let volume = prefix_product(s, s.len() as int);
        let dim_len = at_least_one(max_shape[d]);
        let by_budget = min_nitems / at_least_one(volume);
        let by_range = (dim_len + s[d] - 1) / s[d];
        let multiplier = at_least_one(min_int(by_budget, by_range));
        s.update(d, min_int(s[d] * multiplier, dim_len))
    }
}

/// The read shape after snapping each of the first `k` dims of `order` that covers its whole
/// requested range to the array's extent (at least 1).
pub open spec fn snap_read_dims(
    rs: Seq<int>,
    max_shape: Seq<int>,
    array_shape: Seq<int>,
    order: Seq<usize>,
    k: int,
) -> Seq<int>
    decreases k,
{
    if k <= 0 || k > order.len() {
        rs
    } else {
        let s = snap_read_dims(rs, max_shape, array_shape, order, k - 1);
        let d = order[k - 1] as int;
        s.update(d, if s[d] == max_shape[d] { at_least_one(array_shape[d]) } else { s[d] })
    }
}

/// The first bound of the balanced scale-down: `max_nitems` rounded up to a power of two, at most
/// `2^30`.
pub open spec fn initial_read_bound(max_nitems: int) -> int {
    let p = next_power_of_two_from(max_nitems, 1);
    if p <= 0x4000_0000 {
        p
    } else {
        0x4000_0000
    }
}

/// The read tile chosen from the seed `rs`: the ordered dims are clamped into their range, scaled
/// down in balance until about `max_nitems` items, grown in order towards `min_nitems`, and snapped
/// to the array's extent where they cover their whole range.
pub open spec fn scaled_read_shape(
    rs: Seq<int>,
    max_shape: Seq<int>,
    array_shape: Seq<int>,
    min_nitems: int,
    max_nitems: int,
    order: Seq<usize>,
) -> Seq<int> {
    let n = order.len() as int;
    let clamped = clamp_read_dims(rs, max_shape, order, n);
    let balanced = balanced_read_shape(
        clamped,
        max_shape,
        order,
        max_nitems,
        initial_read_bound(max_nitems),
    );
    snap_read_dims(
        grow_read_dims(balanced, max_shape, order, min_nitems, n),
        max_shape,
        array_shape,
        order,
        n,
    )
}

/// Every dim listed in `order` lies in `[1, max(max_shape[d], 1)]`.
pub open spec fn order_in_range(s: Seq<int>, max_shape: Seq<int>, order: Seq<usize>) -> bool {
    forall|j: int|
        0 <= j < order.len() ==> 1 <= #[trigger] s[order[j] as int] <= at_least_one(
            max_shape[order[j] as int],
        )
}

proof fn lemma_clamp_range(rs: Seq<int>, ms: Seq<int>, order: Seq<usize>, k: int)
    requires
        0 <= k <= order.len(),
        rs.len() == ms.len(),
        forall|j: int| 0 <= j < order.len() ==> #[trigger] order[j] < rs.len(),
    ensures
        clamp_read_dims(rs, ms, order, k).len() == rs.len(),
        forall|j: int|
            0 <= j < k ==> 1 <= #[trigger] clamp_read_dims(rs, ms, order, k)[order[j] as int]
                <= at_least_one(ms[order[j] as int]),
    decreases k,
{
    if k > 0 {
        lemma_clamp_range(rs, ms, order, k - 1);
    }
}

proof fn lemma_cap_range(rs: Seq<int>, ms: Seq<int>, order: Seq<usize>, bound: int, k: int)
    requires
        0 <= k <= order.len(),
        rs.len() == ms.len(),
        forall|j: int| 0 <= j < order.len() ==> #[trigger] order[j] < rs.len(),
        order_in_range(rs, ms, order),
    ensures
        cap_read_dims(rs, ms, order, bound, k).len() == rs.len(),
        order_in_range(cap_read_dims(rs, ms, order, bound, k), ms, order),
    decreases k,
{
    if k > 0 {
        lemma_cap_range(rs, ms, order, bound, k - 1);
        let s = cap_read_dims(rs, ms, order, bound, k - 1);
        let t = cap_read_dims(rs, ms, order, bound, k);
        assert forall|j: int| 0 <= j < order.len() implies 1 <= #[trigger] t[order[j] as int]
            <= at_least_one(ms[order[j] as int]) by {
            assert(1 <= s[order[j] as int]);
        }
    }
}

proof fn lemma_balanced_range(rs: Seq<int>, ms: Seq<int>, order: Seq<usize>, max_nitems: int, bound: int)
    requires
        rs.len() == ms.len(),
        forall|j: int| 0 <= j < order.len() ==> #[trigger] order[j] < rs.len(),
        order_in_range(rs, ms, order),
    ensures
        balanced_read_shape(rs, ms, order, max_nitems, bound).len() == rs.len(),
        order_in_range(balanced_read_shape(rs, ms, order, max_nitems, bound), ms, order),
    decreases bound,
{
    let c = cap_read_dims(rs, ms, order, bound, order.len() as int);
    lemma_cap_range(rs, ms, order, bound, order.len() as int);
    if !(prefix_product(c, c.len() as int) / 2 <= max_nitems || bound <= 1) {
        lemma_balanced_range(c, ms, order, max_nitems, at_least_one(bound / 2));
    }
}

proof fn lemma_grow_range(rs: Seq<int>, ms: Seq<int>, order: Seq<usize>, min_nitems: int, k: int)
    requires
        0 <= k <= order.len(),
        rs.len() == ms.len(),
        forall|j: int| 0 <= j < order.len() ==> #[trigger] order[j] < rs.len(),
        order_in_range(rs, ms, order),
    ensures
        grow_read_dims(rs, ms, order, min_nitems, k).len() == rs.len(),
        order_in_range(grow_read_dims(rs, ms, order, min_nitems, k), ms, order),
    decreases k,
{
    if k > 0 {
        lemma_grow_range(rs, ms, order, min_nitems, k - 1);
        let s = grow_read_dims(rs, ms, order, min_nitems, k - 1);
        let t = grow_read_dims(rs, ms, order, min_nitems, k);
        let d = order[k - 1] as int;
        let volume = prefix_product(s, s.len() as int);
        let dim_len = at_least_one(ms[d]);
        let by_budget = min_nitems / at_least_one(volume);
        let by_range = (dim_len + s[d] - 1) / s[d];
        let multiplier = at_least_one(min_int(by_budget, by_range));
        assert(s[d] >= 1) by {
            assert(order[k - 1] == d);
        }
        assert(s[d] * multiplier >= 1) by (nonlinear_arith)
            requires
                s[d] >= 1,
                multiplier >= 1,
        ;
        assert forall|j: int| 0 <= j < order.len() implies 1 <= #[trigger] t[order[j] as int]
            <= at_least_one(ms[order[j] as int]) by {
            assert(1 <= s[order[j] as int]);
        }
    }
}

proof fn lemma_snap_range(
    rs: Seq<int>,
    ms: Seq<int>,
    arr: Seq<int>,
    order: Seq<usize>,
    k: int,
)
    requires
        0 <= k <= order.len(),
        rs.len() == ms.len(),
        forall|j: int| 0 <= j < order.len() ==> #[trigger] order[j] < rs.len(),
        order_in_range(rs, ms, order),
    ensures
        snap_read_dims(rs, ms, arr, order, k).len() == rs.len(),
        forall|j: int|
            0 <= j < order.len() ==> {
                let v = #[trigger] snap_read_dims(rs, ms, arr, order, k)[order[j] as int];
                let d = order[j] as int;
                (1 <= v <= at_least_one(ms[d])) || v == at_least_one(arr[d])
            },
    decreases k,
{
    if k > 0 {
        lemma_snap_range(rs, ms, arr, order, k - 1);
        let s = snap_read_dims(rs, ms, arr, order, k - 1);
        let t = snap_read_dims(rs, ms, arr, order, k);
        assert forall|j: int| 0 <= j < order.len() implies {
            let v = #[trigger] t[order[j] as int];
            let d = order[j] as int;
            (1 <= v <= at_least_one(ms[d])) || v == at_least_one(arr[d])
        } by {
            let v0 = s[order[j] as int];
            assert((1 <= v0 <= at_least_one(ms[order[j] as int])) || v0 == at_least_one(arr[order[j] as int]));
        }
    }
}

/// The read tile before snapping: the seed clamped, scaled down in balance and grown in order,
/// as [`scaled_read_shape`] takes its steps.
pub open spec fn grown_read_shape(
    rs: Seq<int>,
    max_shape: Seq<int>,
    min_nitems: int,
    max_nitems: int,
    order: Seq<usize>,
) -> Seq<int> {
    let n = order.len() as int;
    grow_read_dims(
        balanced_read_shape(
            clamp_read_dims(rs, max_shape, order, n),
            max_shape,
            order,
            max_nitems,
            initial_read_bound(max_nitems),
        ),
        max_shape,
        order,
        min_nitems,
        n,
    )
}

proof fn lemma_snap_each(s: Seq<int>, ms: Seq<int>, arr: Seq<int>, order: Seq<usize>, k: int)
    requires
        0 <= k <= order.len(),
        forall|j: int| 0 <= j < order.len() ==> #[trigger] order[j] < s.len(),
    ensures
        snap_read_dims(s, ms, arr, order, k).len() == s.len(),
        forall|j: int|
            0 <= j < k ==> #[trigger] snap_read_dims(s, ms, arr, order, k)[order[j] as int] == if s[order[j]
                as int] == ms[order[j] as int] {
                at_least_one(arr[order[j] as int])
            } else {
                s[order[j] as int]
            },
        forall|e: int|
            0 <= e < s.len() && (forall|j: int| 0 <= j < k ==> order[j] != e as usize)
                ==> #[trigger] snap_read_dims(s, ms, arr, order, k)[e] == s[e],
    decreases k,
{
    if k > 0 {
        lemma_snap_each(s, ms, arr, order, k - 1);
        let t = snap_read_dims(s, ms, arr, order, k - 1);
        let u = snap_read_dims(s, ms, arr, order, k);
        let d = order[k - 1] as int;
        if !(exists|j: int| 0 <= j < k - 1 && order[j] == d as usize) {
            assert(t[d] == s[d]);
        } else {
            let j = choose|j: int| 0 <= j < k - 1 && order[j] == d as usize;
            assert(t[order[j] as int] == t[d]);
        }
        assert forall|e: int|
            0 <= e < s.len() && (forall|j: int| 0 <= j < k ==> order[j] != e as usize) implies #[trigger] u[e]
            == s[e] by {
            assert(order[k - 1] != e as usize);
            assert(forall|j: int| 0 <= j < k - 1 ==> order[j] != e as usize);
        }
    }
}

/// Every dim of the scale order that covers its whole requested range once grown (its grown
/// length is `max_shape[d]`) is snapped to the array's extent `max(array_shape[d], 1)`; every
/// other dim of the order keeps its grown length.
pub proof fn lemma_scaled_read_shape_snaps(
    rs: Seq<int>,
    max_shape: Seq<int>,
    array_shape: Seq<int>,
    min_nitems: int,
    max_nitems: int,
    order: Seq<usize>,
)
    requires
        rs.len() == max_shape.len(),
        forall|j: int| 0 <= j < order.len() ==> #[trigger] order[j] < rs.len(),
    ensures
        forall|j: int|
            #![trigger order[j]]
            0 <= j < order.len() ==> scaled_read_shape(
                rs,
                max_shape,
                array_shape,
                min_nitems,
                max_nitems,
                order,
            )[order[j] as int] == if grown_read_shape(rs, max_shape, min_nitems, max_nitems, order)[order[j]
                as int] == max_shape[order[j] as int] {
                if array_shape[order[j] as int] >= 1 {
                    array_shape[order[j] as int]
                } else {
                    1
                }
            } else {
                grown_read_shape(rs, max_shape, min_nitems, max_nitems, order)[order[j] as int]
            },
{
    let n = order.len() as int;
    let clamped = clamp_read_dims(rs, max_shape, order, n);
    lemma_clamp_range(rs, max_shape, order, n);
    let bal = balanced_read_shape(clamped, max_shape, order, max_nitems, initial_read_bound(max_nitems));
    lemma_balanced_range(clamped, max_shape, order, max_nitems, initial_read_bound(max_nitems));
    let grown = grow_read_dims(bal, max_shape, order, min_nitems, n);
    lemma_grow_range(bal, max_shape, order, min_nitems, n);
    assert(grown == grown_read_shape(rs, max_shape, min_nitems, max_nitems, order));
    lemma_snap_each(grown, max_shape, array_shape, order, n);
}

/// Each dim the read tile scales ends in its range `[1, max(max_shape[d], 1)]`, or snapped to
/// the array's extent `max(array_shape[d], 1)`.
pub proof fn lemma_scaled_read_shape_ranges(
    rs: Seq<int>,
    max_shape: Seq<int>,
    array_shape: Seq<int>,
    min_nitems: int,
    max_nitems: int,
    order: Seq<usize>,
)
    requires
        rs.len() == max_shape.len(),
        forall|j: int| 0 <= j < order.len() ==> #[trigger] order[j] < rs.len(),
    ensures
        scaled_read_shape(rs, max_shape, array_shape, min_nitems, max_nitems, order).len() == rs.len(),
        forall|j: int|
            0 <= j < order.len() ==> {
                let v = #[trigger] scaled_read_shape(
                    rs,
                    max_shape,
                    array_shape,
                    min_nitems,
                    max_nitems,
                    order,
                )[order[j] as int];
                let d = order[j] as int;
                (1 <= v <= at_least_one(max_shape[d])) || v == at_least_one(array_shape[d])
            },
{
    let n = order.len() as int;
    let clamped = clamp_read_dims(rs, max_shape, order, n);
    lemma_clamp_range(rs, max_shape, order, n);
    assert(order_in_range(clamped, max_shape, order));
    let bal = balanced_read_shape(clamped, max_shape, order, max_nitems, initial_read_bound(max_nitems));
    lemma_balanced_range(clamped, max_shape, order, max_nitems, initial_read_bound(max_nitems));
    let grown = grow_read_dims(bal, max_shape, order, min_nitems, n);
    lemma_grow_range(bal, max_shape, order, min_nitems, n);
    lemma_snap_range(grown, max_shape, array_shape, order, n);
}

/// Changing an entry at or after `k` leaves the product of the first `k` entries alone.
pub proof fn lemma_prefix_product_update_after(s: Seq<int>, d: int, v: int, k: int)
    requires
        0 <= k <= d < s.len(),
    ensures
        prefix_product(s.update(d, v), k) == prefix_product(s, k),
    decreases k,
{
    if k > 0 {
        lemma_prefix_product_update_after(s, d, v, k - 1);
    }
}

/// Setting entry `d` to `v` scales the product of the first `k > d` entries by `v` relative to
/// setting it to 1.
pub proof fn lemma_prefix_product_update(s: Seq<int>, d: int, v: int, k: int)
    requires
        0 <= d < k <= s.len(),
    ensures
        prefix_product(s.update(d, v), k) == prefix_product(s.update(d, 1), k) * v,
    decreases k,
{
    if k == d + 1 {
        lemma_prefix_product_update_after(s, d, v, d);
        lemma_prefix_product_update_after(s, d, 1, d);
    } else {
        lemma_prefix_product_update(s, d, v, k - 1);
        let a = prefix_product(s.update(d, 1), k - 1);
        assert(a * v * s[k - 1] == a * s[k - 1] * v) by (nonlinear_arith);
    }
}

/// Pointwise smaller nonnegative entries give a smaller product.
pub proof fn lemma_prefix_product_le(a: Seq<int>, b: Seq<int>, k: int)
    requires
        0 <= k <= a.len(),
        a.len() == b.len(),
        forall|j: int| 0 <= j < a.len() ==> 0 <= #[trigger] a[j] <= b[j],
    ensures
        0 <= prefix_product(a, k) <= prefix_product(b, k),
    decreases k,
{
    if k > 0 {
        lemma_prefix_product_le(a, b, k - 1);
        let pa = prefix_product(a, k - 1);
        let pb = prefix_product(b, k - 1);
        assert(0 <= pa * a[k - 1] <= pb * b[k - 1]) by (nonlinear_arith)
            requires
                0 <= pa <= pb,
                0 <= a[k - 1] <= b[k - 1],
        ;
    }
}

/// The values of a sequence of `u64`s.
pub open spec fn u64_ints(s: Seq<u64>) -> Seq<int> {
    Seq::new(s.len(), |d: int| s[d] as int)
}

/// The product of the entries, each step within `u64`.
fn product_u64(s: &[u64], Ghost(bound): Ghost<Seq<int>>) -> (r: u64)
    requires
        bound.len() == s@.len(),
        forall|j: int| 0 <= j < s@.len() ==> 0 <= #[trigger] s@[j] <= bound[j],
        forall|k: int| 0 <= k <= s@.len() ==> #[trigger] prefix_product(bound, k) <= u64::MAX,
    ensures
        r == prefix_product(u64_ints(s@), s@.len() as int),
{
    let n = s.len();
    let mut p: u64 = 1;
    let mut k: usize = 0;
    while k < n
        invariant
            k <= n,
            n == s@.len(),
            bound.len() == n,
            forall|j: int| 0 <= j < n ==> 0 <= #[trigger] s@[j] <= bound[j],
            forall|k: int| 0 <= k <= n ==> #[trigger] prefix_product(bound, k) <= u64::MAX,
            p == prefix_product(u64_ints(s@), k as int),
        decreases n - k,
    {
        proof {
            assert forall|j: int| 0 <= j < n implies 0 <= #[trigger] u64_ints(s@)[j] <= bound[j] by {}
            lemma_prefix_product_le(u64_ints(s@), bound, k as int + 1);
            assert(prefix_product(bound, k as int + 1) <= u64::MAX);
        }
        p = p * s[k];
        k += 1;
    }
    p
}

/// Chooses a read tile from the block-shape seed in `read_shape`, as [`scaled_read_shape`] states:
/// the dims listed in `scale_order` are clamped into `[1, max(max_shape[d], 1)]`, capped in
/// balance at a common power-of-two bound that halves until half the volume is within
/// `target_nitems.1` items, grown in order by integer multiples towards `target_nitems.0` items,
/// and snapped to `max(array_shape[d], 1)` where they cover their whole range `max_shape[d]`.
/// Every dim absent from `scale_order` is left exactly as seeded.
pub fn scale_read_shape(
    read_shape: &mut [u64],
    max_shape: &[u64],
    array_shape: &[u64],
    target_nitems: (u64, u64),
    scale_order: &[usize],
)
    requires
        array_shape@.len() == max_shape@.len(),
        old(read_shape)@.len() == max_shape@.len(),
        scale_order@.len() <= max_shape@.len(),
        scale_order@.len() <= 8,
        forall|i: int| 0 <= i < scale_order@.len() ==> #[trigger] scale_order@[i] < max_shape@.len(),
        target_nitems.1 <= 0x8000_0000_0000_0000,
        forall|k: int|
            0 <= k <= max_shape@.len() ==> #[trigger] prefix_product(
                clamp_read_dims(
                    u64_ints(old(read_shape)@),
                    u64_ints(max_shape@),
                    scale_order@,
                    scale_order@.len() as int,
                ),
                k,
            ) <= u64::MAX,
    ensures
        u64_ints(final(read_shape)@) == scaled_read_shape(
            u64_ints(old(read_shape)@),
            u64_ints(max_shape@),
            u64_ints(array_shape@),
            target_nitems.0 as int,
            target_nitems.1 as int,
            scale_order@,
        ),
        forall|j: int|
            0 <= j < max_shape@.len() && !scale_order@.contains(j as usize) ==> #[trigger] final(read_shape)@[j]
                == old(read_shape)@[j],
{
    let ghost rs0 = u64_ints(read_shape@);
    let ghost seed = read_shape@;
    let ghost ms = u64_ints(max_shape@);
    let ghost ord = scale_order@;
    let ndim = max_shape.len();
    let no = scale_order.len();
    let min_nitems = target_nitems.0;
    let max_nitems = target_nitems.1;

    // Clamp each scaled dim into [1, max(max_shape, 1)].
    let mut i: usize = 0;
    while i < no
        invariant
            i <= no,
            no == ord.len(),
            ord == scale_order@,
            ndim == max_shape@.len(),
            ms == u64_ints(max_shape@),
            read_shape@.len() == ndim,
            forall|x: int| 0 <= x < no ==> #[trigger] ord[x] < ndim,
            u64_ints(read_shape@) == clamp_read_dims(rs0, ms, ord, i as int),
            forall|x: int| 0 <= x < i ==> read_shape@[#[trigger] ord[x] as int] >= 1,
            forall|j: int|
                0 <= j < ndim && !ord.contains(j as usize) ==> #[trigger] read_shape@[j] == seed[j],
        decreases no - i,
    {
        let dim = scale_order[i];
        let hi = if max_shape[dim] >= 1 { max_shape[dim] } else { 1 };
        let v = read_shape[dim];
        read_shape[dim] = if v < 1 { 1 } else if v > hi { hi } else { v };
        proof {
            assert(ord[i as int] == dim);
            assert(u64_ints(read_shape@) =~= clamp_read_dims(rs0, ms, ord, i as int + 1));
        }
        i += 1;
    }
    let ghost clamped = u64_ints(read_shape@);

    // Scale down in balance: cap every scaled dim at a common bound that halves until half the
    // volume fits.
    let mut bound: u64 = if max_nitems == 0 {
        1
    } else if max_nitems >= 0x4000_0000 {
        0x4000_0000
    } else {
        let p = next_power_of_two(max_nitems);
        if p <= 0x4000_0000 { p } else { 0x4000_0000 }
    };
    proof {
        if max_nitems == 0 {
            assert(next_power_of_two_from(0, 1) == 1);
        } else {
            lemma_next_power_of_two(max_nitems as int, 1);
        }
    }
    let ghost b0 = bound as int;
    assert(b0 == initial_read_bound(max_nitems as int));
    let mut done = false;
    while !done
        invariant
            no == ord.len(),
            ord == scale_order@,
            ndim == max_shape@.len(),
            ms == u64_ints(max_shape@),
            read_shape@.len() == ndim,
            clamped.len() == ndim,
            forall|x: int| 0 <= x < no ==> #[trigger] ord[x] < ndim,
            forall|k: int| 0 <= k <= ndim ==> #[trigger] prefix_product(clamped, k) <= u64::MAX,
            forall|x: int| 0 <= x < no ==> read_shape@[#[trigger] ord[x] as int] >= 1,
            forall|j: int| 0 <= j < ndim ==> #[trigger] read_shape@[j] <= clamped[j],
            forall|j: int|
                0 <= j < ndim && !ord.contains(j as usize) ==> #[trigger] read_shape@[j] == seed[j],
            bound >= 1,
            !done ==> balanced_read_shape(clamped, ms, ord, max_nitems as int, b0)
                == balanced_read_shape(u64_ints(read_shape@), ms, ord, max_nitems as int, bound as int),
            done ==> u64_ints(read_shape@) == balanced_read_shape(
                clamped,
                ms,
                ord,
                max_nitems as int,
                b0,
            ),
        decreases (if done { 0int } else { bound as int + 1 }),
    {
        let ghost cur = u64_ints(read_shape@);
        let mut i: usize = 0;
        while i < no
            invariant
                i <= no,
                no == ord.len(),
                ord == scale_order@,
                ndim == max_shape@.len(),
                ms == u64_ints(max_shape@),
                read_shape@.len() == ndim,
                clamped.len() == ndim,
                forall|x: int| 0 <= x < no ==> #[trigger] ord[x] < ndim,
                u64_ints(read_shape@) == cap_read_dims(cur, ms, ord, bound as int, i as int),
                forall|x: int| 0 <= x < no ==> read_shape@[#[trigger] ord[x] as int] >= 1,
                forall|j: int| 0 <= j < ndim ==> #[trigger] read_shape@[j] <= clamped[j],
                forall|j: int|
                    0 <= j < ndim && !ord.contains(j as usize) ==> #[trigger] read_shape@[j]
                        == seed[j],
            decreases no - i,
        {
            let dim = scale_order[i];
            let hi = if max_shape[dim] >= 1 { max_shape[dim] } else { 1 };
            let v = read_shape[dim];
            let c1 = if v <= bound { v } else { bound };
            let c = if c1 <= hi { c1 } else { hi };
            read_shape[dim] = if c >= 1 { c } else { 1 };
            proof {
                assert(ord[i as int] == dim);
                assert(u64_ints(read_shape@) =~= cap_read_dims(
                    cur,
                    ms,
                    ord,
                    bound as int,
                    i as int + 1,
                ));
            }
            i += 1;
        }
        let size = product_u64(read_shape, Ghost(clamped));
        if size / 2 <= max_nitems || bound <= 1 {
            done = true;
        } else {
            bound = if bound / 2 >= 1 { bound / 2 } else { 1 };
        }
    }
    let ghost balanced = u64_ints(read_shape@);

    // Grow in order towards min_nitems, by integer multiples of the current length.
    let mut volume = product_u64(read_shape, Ghost(clamped));
    let mut i: usize = 0;
    while i < no
        invariant
            i <= no,
            no == ord.len(),
            ord == scale_order@,
            ndim == max_shape@.len(),
            ms == u64_ints(max_shape@),
            read_shape@.len() == ndim,
            forall|x: int| 0 <= x < no ==> #[trigger] ord[x] < ndim,
            u64_ints(read_shape@) == grow_read_dims(balanced, ms, ord, min_nitems as int, i as int),
            volume == prefix_product(u64_ints(read_shape@), ndim as int),
            forall|x: int| 0 <= x < no ==> read_shape@[#[trigger] ord[x] as int] >= 1,
            forall|j: int|
                0 <= j < ndim && !ord.contains(j as usize) ==> #[trigger] read_shape@[j] == seed[j],
        decreases no - i,
    {
        let dim = scale_order[i];
        let dim_len = if max_shape[dim] >= 1 { max_shape[dim] } else { 1 };
        let by_budget = min_nitems / (if volume >= 1 { volume } else { 1 });
        let cur = read_shape[dim];
        let by_range = Idx::div_ceil(dim_len, cur);
        let m0 = if by_budget <= by_range { by_budget } else { by_range };
        let m = if m0 >= 1 { m0 } else { 1 };
        assert(1 <= (cur as u128) * (m as u128) <= 0xffff_ffff_ffff_ffff * 0xffff_ffff_ffff_ffff) by (nonlinear_arith)
            requires
                1 <= cur <= 0xffff_ffff_ffff_ffffu64,
                1 <= m <= 0xffff_ffff_ffff_ffffu64,
        ;
        let prod: u128 = (cur as u128) * (m as u128);
        let new_len: u64 = if prod <= dim_len as u128 { prod as u64 } else { dim_len };
        let ghost s = u64_ints(read_shape@);
        proof {
            assert(ord[i as int] == dim);
            assert(s.update(dim as int, cur as int) == s);
            lemma_prefix_product_update(s, dim as int, cur as int, ndim as int);
            lemma_prefix_product_update(s, dim as int, new_len as int, ndim as int);
            let others = prefix_product(s.update(dim as int, 1), ndim as int);
            assert(forall|j: int| 0 <= j < ndim ==> #[trigger] s.update(dim as int, 1)[j] >= 0);
            lemma_prefix_product_le(
                Seq::new(ndim as nat, |j: int| 0int),
                s.update(dim as int, 1),
                ndim as int,
            );
            assert(volume == others * cur);
            vstd::arithmetic::div_mod::lemma_div_by_multiple(others, cur as int);
            assert(volume / cur == others);
            if m0 >= 1 {
                assert(others * new_len <= min_nitems || others * new_len <= volume) by (nonlinear_arith)
                    requires
                        new_len <= cur * m,
                        m <= by_budget,
                        by_budget == min_nitems as int / (if volume >= 1 { volume as int } else { 1int }),
                        volume == others * cur,
                        others >= 0,
                        cur >= 1,
                ;
            } else {
                assert(others * new_len <= volume) by (nonlinear_arith)
                    requires
                        new_len <= cur,
                        volume == others * cur,
                        others >= 0,
                ;
            }
        }
        volume = volume / cur * new_len;
        read_shape[dim] = new_len;
        proof {
            assert(u64_ints(read_shape@) =~= grow_read_dims(
                balanced,
                ms,
                ord,
                min_nitems as int,
                i as int + 1,
            ));
        }
        i += 1;
    }
    let ghost grown = u64_ints(read_shape@);

    // Snap each scaled dim that covers its whole range to the array's extent.
    let mut i: usize = 0;
    while i < no
        invariant
            i <= no,
            no == ord.len(),
            ord == scale_order@,
            ndim == max_shape@.len(),
            ndim == array_shape@.len(),
            ms == u64_ints(max_shape@),
            read_shape@.len() == ndim,
            forall|x: int| 0 <= x < no ==> #[trigger] ord[x] < ndim,
            u64_ints(read_shape@) == snap_read_dims(
                grown,
                ms,
                u64_ints(array_shape@),
                ord,
                i as int,
            ),
            forall|j: int|
                0 <= j < ndim && !ord.contains(j as usize) ==> #[trigger] read_shape@[j] == seed[j],
        decreases no - i,
    {
        let dim = scale_order[i];
        if read_shape[dim] == max_shape[dim] {
            read_shape[dim] = if array_shape[dim] >= 1 { array_shape[dim] } else { 1 };
        }
        proof {
            assert(ord[i as int] == dim);
            assert(u64_ints(read_shape@) =~= snap_read_dims(
                grown,
                ms,
                u64_ints(array_shape@),
                ord,
                i as int + 1,
            ));
        }
        i += 1;
    }
}

} // verus!

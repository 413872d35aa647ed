use vstd::prelude::*;
use core::ops::Range;
use crate::error::{Error, ErrorKind};
use crate::util::idx::Idx;
use crate::storage::params::BlockSize;
use crate::util::iter::block::{block_range_end, clip_len, clip_offset, lemma_border_parts, touches};
use crate::util::iter::nd::{as_ints, in_box, IdxIter, ravel, ravel_from, suffix_volume, volume, lemma_ravel_bounds};
use crate::storage::params::block_ints;
use crate::util::layout::{dot, seq_prod, terms, within};
use crate::util::nd_copy::{copied, in_element, region_disjoint, region_fits, NdCopier};
use crate::util::nd_iter_unordered::usize_ints;
use crate::util::{lemma_product_from_bounds, packed_strides, product_from, span_prefix};

verus! {

// ---------------------------------------------------------------------------
// The block grid of a compact array
// ---------------------------------------------------------------------------

/// The shape of the requested region.
pub open spec fn region_shape(index: Seq<Range<u64>>) -> Seq<int> {
    Seq::new(index.len(), |d: int| index[d].end - index[d].start)
}

/// The number of blocks along each dimension: `ceil(shape[d] / block_shape[d])`.
pub open spec fn grid_shape(shape: Seq<u64>, block_shape: Seq<BlockSize>) -> Seq<u64> {
    Seq::new(
        shape.len(),
        |d: int| ((shape[d] + block_shape[d] - 1) / (block_shape[d] as int)) as u64,
    )
}

/// The blocks touched by the requested region, as a box of block indices: along dimension `d`,
/// from `first_blocks(..)[d]` to `block_range_end(..)`.
pub open spec fn first_blocks(index: Seq<Range<u64>>, block_shape: Seq<BlockSize>) -> Seq<int> {
    Seq::new(index.len(), |d: int| (index[d].start as int) / (block_shape[d] as int))
}

/// One past the last block touched along each dimension.
pub open spec fn last_blocks(index: Seq<Range<u64>>, block_shape: Seq<BlockSize>) -> Seq<int> {
    Seq::new(
        index.len(),
        |d: int| block_range_end(index[d].start as int, index[d].end as int, block_shape[d] as int),
    )
}

/// Block index `b` is one of the blocks the requested region touches.
pub open spec fn touched_block(
    index: Seq<Range<u64>>,
    block_shape: Seq<BlockSize>,
    b: Seq<int>,
) -> bool {
    &&& b.len() == index.len()
    &&& forall|d: int|
        0 <= d < index.len() ==> #[trigger] touches(
            index[d].start as int,
            index[d].end as int,
            block_shape[d] as int,
            b[d],
        )
}

/// The position, within block `b`, of the first item of the block that lies in the region.
pub open spec fn part_inner(index: Seq<Range<u64>>, block_shape: Seq<BlockSize>, b: Seq<int>) -> Seq<
    int,
> {
    Seq::new(
        index.len(),
        |d: int| clip_offset(index[d].start as int, block_shape[d] as int, b[d]),
    )
}

/// The shape of the part of block `b` that lies in the region.
pub open spec fn part_extent(index: Seq<Range<u64>>, block_shape: Seq<BlockSize>, b: Seq<int>) -> Seq<
    int,
> {
    Seq::new(
        index.len(),
        |d: int| clip_len(index[d].start as int, index[d].end as int, block_shape[d] as int, b[d]),
    )
}

/// The position, within the region, of the first item of the part of block `b`.
pub open spec fn part_origin(index: Seq<Range<u64>>, block_shape: Seq<BlockSize>, b: Seq<int>) -> Seq<
    int,
> {
    Seq::new(
        index.len(),
        |d: int|
            b[d] * block_shape[d] + clip_offset(index[d].start as int, block_shape[d] as int, b[d])
                - index[d].start,
    )
}

/// The part of block `b` covers position `p` of the region.
pub open spec fn part_covers(
    index: Seq<Range<u64>>,
    block_shape: Seq<BlockSize>,
    b: Seq<int>,
    p: Seq<int>,
) -> bool {
    &&& p.len() == index.len()
    &&& forall|d: int|
        0 <= d < index.len() ==> part_origin(index, block_shape, b)[d] <= #[trigger] p[d]
            < part_origin(index, block_shape, b)[d] + part_extent(index, block_shape, b)[d]
}

/// The block holding position `p` of the region, and the item's position within it.
pub open spec fn holding_block(index: Seq<Range<u64>>, block_shape: Seq<BlockSize>, p: Seq<int>) -> Seq<
    int,
> {
    Seq::new(index.len(), |d: int| (index[d].start + p[d]) / (block_shape[d] as int))
}

/// The position, within its block, of the item at position `p` of the region.
pub open spec fn position_in_block(
    index: Seq<Range<u64>>,
    block_shape: Seq<BlockSize>,
    p: Seq<int>,
) -> Seq<int> {
    Seq::new(index.len(), |d: int| (index[d].start + p[d]) % (block_shape[d] as int))
}

/// The requested ranges lie within `shape`, one per dimension, over blocks of positive size.
pub open spec fn valid_request(
    shape: Seq<u64>,
    block_shape: Seq<BlockSize>,
    index: Seq<Range<u64>>,
) -> bool {
    &&& index.len() == shape.len()
    &&& block_shape.len() == shape.len()
    &&& forall|d: int| 0 <= d < shape.len() ==> #[trigger] block_shape[d] > 0
    &&& forall|d: int|
        0 <= d < shape.len() ==> #[trigger] index[d].start <= index[d].end <= shape[d]
}

/// Along one dimension, the item at `g` of the range `begin..end` lies in the part of exactly one
/// touched block, the block `g / s`, at `g % s` within it.
pub proof fn lemma_one_part_holds(begin: int, end: int, s: int, g: int, k: int)
    requires
        0 <= begin <= g < end,
        s > 0,
    ensures
        touches(begin, end, s, g / s),
        (g / s) * s + clip_offset(begin, s, g / s) <= g < (g / s) * s + clip_offset(begin, s, g / s)
            + clip_len(begin, end, s, g / s),
        g - (g / s) * s == g % s,
        touches(begin, end, s, k) && k * s + clip_offset(begin, s, k) <= g < k * s + clip_offset(
            begin,
            s,
            k,
        ) + clip_len(begin, end, s, k) ==> k == g / s,
{
    let q = g / s;
    vstd::arithmetic::div_mod::lemma_fundamental_div_mod(g, s);
    vstd::arithmetic::div_mod::lemma_div_is_ordered(begin, g, s);
    vstd::arithmetic::div_mod::lemma_fundamental_div_mod(end + s - 1, s);
    assert(q * s <= g);
    // q is below the end of the touched range: q * s <= g < end, so q < ceil(end / s)
    assert(q < (end + s - 1) / s) by (nonlinear_arith)
        requires
            q * s <= g,
            g < end,
            s > 0,
            s * ((end + s - 1) / s) + (end + s - 1) % s == end + s - 1,
            0 <= (end + s - 1) % s < s,
    ;
    assert((q + 1) * s == q * s + s) by (nonlinear_arith);
    if touches(begin, end, s, k) && k * s + clip_offset(begin, s, k) <= g < k * s + clip_offset(
        begin,
        s,
        k,
    ) + clip_len(begin, end, s, k) {
        assert((k + 1) * s == k * s + s) by (nonlinear_arith);
        assert(k * s <= g < (k + 1) * s);
        vstd::arithmetic::div_mod::lemma_fundamental_div_mod_converse(g, s, k, g - k * s);
    }
}

/// Reading a region block by block covers it exactly: every position of the region lies in the
/// part of exactly one touched block, the block that holds the item there, at the item's position
/// within that block.
#[verifier::spinoff_prover]
pub proof fn lemma_parts_tile(
    shape: Seq<u64>,
    block_shape: Seq<BlockSize>,
    index: Seq<Range<u64>>,
    p: Seq<int>,
    b: Seq<int>,
)
    requires
        valid_request(shape, block_shape, index),
        p.len() == index.len(),
        forall|d: int| 0 <= d < p.len() ==> 0 <= #[trigger] p[d] < index[d].end - index[d].start,
    ensures
        touched_block(index, block_shape, holding_block(index, block_shape, p)),
        part_covers(index, block_shape, holding_block(index, block_shape, p), p),
        forall|d: int|
            0 <= d < p.len() ==> #[trigger] part_inner(index, block_shape, holding_block(index, block_shape, p))[d]
                + p[d] - part_origin(index, block_shape, holding_block(index, block_shape, p))[d]
                == position_in_block(index, block_shape, p)[d],
        touched_block(index, block_shape, b) && part_covers(index, block_shape, b, p) ==> b
            == holding_block(index, block_shape, p),
{
    let h = holding_block(index, block_shape, p);
    assert forall|d: int|
        0 <= d < p.len() implies #[trigger] touches(
        index[d].start as int,
        index[d].end as int,
        block_shape[d] as int,
        h[d],
    ) by {
        lemma_one_part_holds(
            index[d].start as int,
            index[d].end as int,
            block_shape[d] as int,
            index[d].start + p[d],
            0,
        );
    }
    assert forall|d: int|
        0 <= d < p.len() implies part_origin(index, block_shape, h)[d] <= #[trigger] p[d]
        < part_origin(index, block_shape, h)[d] + part_extent(index, block_shape, h)[d] by {
        lemma_one_part_holds(
            index[d].start as int,
            index[d].end as int,
            block_shape[d] as int,
            index[d].start + p[d],
            0,
        );
    }
    assert forall|d: int|
        0 <= d < p.len() implies #[trigger] part_inner(index, block_shape, h)[d] + p[d]
        - part_origin(index, block_shape, h)[d] == position_in_block(index, block_shape, p)[d] by {
        lemma_one_part_holds(
            index[d].start as int,
            index[d].end as int,
            block_shape[d] as int,
            index[d].start + p[d],
            0,
        );
    }
    if touched_block(index, block_shape, b) && part_covers(index, block_shape, b, p) {
        assert forall|d: int| 0 <= d < p.len() implies b[d] == h[d] by {
            assert(block_shape[d] > 0);
            assert(touches(index[d].start as int, index[d].end as int, block_shape[d] as int, b[d]));
            assert(part_origin(index, block_shape, b)[d] <= p[d]);
            lemma_one_part_holds(
                index[d].start as int,
                index[d].end as int,
                block_shape[d] as int,
                index[d].start + p[d],
                b[d],
            );
        }
        assert(b =~= h);
    }
}

// ---------------------------------------------------------------------------
// Computing the parts
// ---------------------------------------------------------------------------

/// The offset and the number of the items of block `k` (of `s` items) in `begin..end`.
fn block_part_of(begin: u64, end: u64, s: u64, k: u64) -> (r: (u64, u64))
    requires
        begin <= end,
        s > 0,
        touches(begin as int, end as int, s as int, k as int),
    ensures
        r.0 == clip_offset(begin as int, s as int, k as int),
        r.1 == clip_len(begin as int, end as int, s as int, k as int),
        r.0 + r.1 <= s,
        r.1 >= 1,
{
    proof {
        lemma_border_parts(begin as int, end as int, s as int, k as int);
        vstd::arithmetic::div_mod::lemma_fundamental_div_mod(begin as int, s as int);
        vstd::arithmetic::div_mod::lemma_fundamental_div_mod(end as int, s as int);
        lemma_part_fits(begin as int, end as int, s as int, k as int);
    }
    if k == begin / s {
        let off = begin % s;
        if s - off < end - begin {
            (off, s - off)
        } else {
            (off, end - begin)
        }
    } else if k == end / s {
        (0, end % s)
    } else {
        (0, s)
    }
}

/// The part of a touched block is nonempty and lies within the block.
proof fn lemma_part_fits(begin: int, end: int, s: int, k: int)
    requires
        0 <= begin <= end,
        s > 0,
        touches(begin, end, s, k),
    ensures
        0 <= clip_offset(begin, s, k),
        clip_len(begin, end, s, k) >= 1,
        clip_offset(begin, s, k) + clip_len(begin, end, s, k) <= s,
{
    lemma_border_parts(begin, end, s, k);
    vstd::arithmetic::div_mod::lemma_fundamental_div_mod(begin, s);
    vstd::arithmetic::div_mod::lemma_fundamental_div_mod(end, s);
    let q = begin / s;
    if k == q {
        assert(begin != end);
    } else if k == end / s {
        // the block is touched, so it starts below end
        vstd::arithmetic::div_mod::lemma_fundamental_div_mod(end + s - 1, s);
        assert(k * s < end) by (nonlinear_arith)
            requires
                k < (end + s - 1) / s,
                s * ((end + s - 1) / s) + (end + s - 1) % s == end + s - 1,
                0 <= (end + s - 1) % s < s,
                s > 0,
        ;
        assert(end == k * s + end % s) by (nonlinear_arith)
            requires
                end == s * (end / s) + end % s,
                k == end / s,
        ;
    }
}

/// The row-major rank of `digits[..k]` within the axes `shape[..k]`.
pub open spec fn ravel_prefix(shape: Seq<u64>, digits: Seq<int>, k: int) -> int
    decreases k,
{
    if k <= 0 {
        0
    } else {
        ravel_prefix(shape, digits, k - 1) * shape[k - 1] + digits[k - 1]
    }
}

/// The rank splits into the rank of the leading digits, scaled by the volume of the remaining
/// axes, plus the rank of the remaining digits.
proof fn lemma_ravel_prefix(shape: Seq<u64>, digits: Seq<int>, k: int)
    requires
        0 <= k <= shape.len(),
    ensures
        ravel(shape, digits) == ravel_prefix(shape, digits, k) * suffix_volume(shape, k)
            + ravel_from(shape, digits, k),
    decreases k,
{
    if k > 0 {
        lemma_ravel_prefix(shape, digits, k - 1);
        let a = ravel_prefix(shape, digits, k - 1);
        let sv = suffix_volume(shape, k);
        let x = shape[k - 1] as int;
        let y = digits[k - 1];
        assert(a * (x * sv) + (y * sv + ravel_from(shape, digits, k)) == (a * x + y) * sv
            + ravel_from(shape, digits, k)) by (nonlinear_arith);
    }
}

/// The row-major index, within the block grid `grid`, of block `b`.
fn ravel_index(grid: &[u64], b: &[u64]) -> (r: u64)
    requires
        in_box(grid@, Seq::new(b@.len(), |d: int| b@[d] as int)),
        volume(grid@) <= u64::MAX,
    ensures
        r == ravel(grid@, Seq::new(b@.len(), |d: int| b@[d] as int)),
{
    let ghost digits = Seq::new(b@.len(), |d: int| b@[d] as int);
    let n = grid.len();
    let mut acc: u64 = 0;
    let mut d: usize = 0;
    proof {
        lemma_ravel_bounds(grid@, digits, 0);
    }
    while d < n
        invariant
            d <= n,
            n == grid@.len(),
            digits == Seq::new(b@.len(), |d: int| b@[d] as int),
            in_box(grid@, digits),
            volume(grid@) <= u64::MAX,
            0 <= ravel(grid@, digits) < volume(grid@),
            acc == ravel_prefix(grid@, digits, d as int),
        decreases n - d,
    {
        proof {
            lemma_ravel_prefix(grid@, digits, d as int + 1);
            crate::util::iter::nd::lemma_suffix_volume_nonneg(grid@, d as int + 1);
            lemma_ravel_bounds(grid@, digits, d as int + 1);
            let next = ravel_prefix(grid@, digits, d as int + 1);
            let sv = suffix_volume(grid@, d as int + 1);
            assert forall|e: int| d + 1 <= e < grid@.len() implies grid@[e] > 0 by {
                assert(0 <= digits[e] < grid@[e]);
            }
            assert(sv >= 1);
            assert(next <= next * sv) by (nonlinear_arith)
                requires
                    sv >= 1,
                    next >= 0,
            ;
            assert(acc * grid@[d as int] + digits[d as int] == next);
            assert(acc * grid@[d as int] >= 0) by (nonlinear_arith)
                requires
                    acc >= 0,
            ;
        }
        acc = acc * grid[d] + b[d];
        d += 1;
    }
    proof {
        lemma_ravel_prefix(grid@, digits, n as int);
    }
    acc
}

// ---------------------------------------------------------------------------
// Byte offsets of positions
// ---------------------------------------------------------------------------

/// The offset of the first `d + 1` coordinates is that of the first `d` plus the last one's term.
proof fn lemma_dot_take_step(u: Seq<int>, s: Seq<int>, d: int)
    requires
        0 <= d < u.len(),
    ensures
        dot(u.take(d + 1), s) == dot(u.take(d), s) + u[d] * s[d],
{
    assert(terms(u.take(d + 1), s).drop_last() =~= terms(u.take(d), s));
}

/// With nonnegative coordinates and strides, the offset of a prefix of the coordinates is at
/// most the offset of all of them.
proof fn lemma_dot_take_le(u: Seq<int>, s: Seq<int>, d: int)
    requires
        0 <= d <= u.len(),
        u.len() <= s.len(),
        forall|e: int| 0 <= e < u.len() ==> #[trigger] u[e] >= 0,
        forall|e: int| 0 <= e < s.len() ==> #[trigger] s[e] >= 0,
    ensures
        0 <= dot(u.take(d), s) <= dot(u, s),
    decreases u.len() - d,
{
    if d < u.len() {
        lemma_dot_take_le(u, s, d + 1);
        lemma_dot_take_step(u, s, d);
        assert(u[d] * s[d] >= 0) by (nonlinear_arith)
            requires
                u[d] >= 0,
                s[d] >= 0,
        ;
    } else {
        assert(u.take(d) =~= u);
    }
    lemma_dot_take_nonneg(u, s, d);
}

/// With nonnegative coordinates and strides, the offset of a prefix of the coordinates is
/// nonnegative.
proof fn lemma_dot_take_nonneg(u: Seq<int>, s: Seq<int>, d: int)
    requires
        0 <= d <= u.len(),
        u.len() <= s.len(),
        forall|e: int| 0 <= e < u.len() ==> #[trigger] u[e] >= 0,
        forall|e: int| 0 <= e < s.len() ==> #[trigger] s[e] >= 0,
    ensures
        0 <= dot(u.take(d), s),
    decreases d,
{
    if d > 0 {
        lemma_dot_take_nonneg(u, s, d - 1);
        lemma_dot_take_step(u, s, d - 1);
        assert(u[d - 1] * s[d - 1] >= 0) by (nonlinear_arith)
            requires
                u[d - 1] >= 0,
                s[d - 1] >= 0,
        ;
    } else {
        assert(terms(u.take(0), s) =~= Seq::<int>::empty());
    }
}

/// The offset of a position inside the box `shape`, plus one element, stays within the span of
/// the box.
proof fn lemma_dot_within_span(
    u: Seq<int>,
    shape: Seq<usize>,
    strides: Seq<usize>,
    itemsize: int,
    k: int,
)
    requires
        0 <= k <= u.len(),
        u.len() <= shape.len(),
        u.len() <= strides.len(),
        forall|e: int| 0 <= e < u.len() ==> 0 <= #[trigger] u[e] < shape[e],
    ensures
        dot(u.take(k), usize_ints(strides)) + itemsize <= span_prefix(shape, strides, itemsize, k),
    decreases k,
{
    if k > 0 {
        lemma_dot_within_span(u, shape, strides, itemsize, k - 1);
        lemma_dot_take_step(u, usize_ints(strides), k - 1);
        let x = u[k - 1];
        let st = strides[k - 1] as int;
        let n = shape[k - 1] as int;
        assert(x * st <= st * (n - 1)) by (nonlinear_arith)
            requires
                0 <= x < n,
                st >= 0,
        ;
    } else {
        assert(terms(u.take(0), usize_ints(strides)) =~= Seq::<int>::empty());
    }
}

/// Offsets add up: the offset of the sum of two positions is the sum of their offsets.
proof fn lemma_dot_add(a: Seq<int>, b: Seq<int>, s: Seq<int>)
    requires
        a.len() == b.len(),
    ensures
        dot(Seq::new(a.len(), |d: int| a[d] + b[d]), s) == dot(a, s) + dot(b, s),
    decreases a.len(),
{
    let c = Seq::new(a.len(), |d: int| a[d] + b[d]);
    if a.len() > 0 {
        let n = a.len() - 1;
        lemma_dot_add(a.drop_last(), b.drop_last(), s);
        assert(terms(c, s).drop_last() =~= terms(
            Seq::new(a.drop_last().len(), |d: int| a.drop_last()[d] + b.drop_last()[d]),
            s,
        ));
        assert(terms(a, s).drop_last() =~= terms(a.drop_last(), s));
        assert(terms(b, s).drop_last() =~= terms(b.drop_last(), s));
        assert((a[n] + b[n]) * s[n] == a[n] * s[n] + b[n] * s[n]) by (nonlinear_arith);
    } else {
        assert(terms(c, s) =~= Seq::<int>::empty());
        assert(terms(a, s) =~= Seq::<int>::empty());
        assert(terms(b, s) =~= Seq::<int>::empty());
    }
}

/// `sum_d pos[d] * strides[d]`, the byte offset of position `pos`.
fn offset_of(pos: &[usize], strides: &[usize]) -> (r: usize)
    requires
        pos@.len() <= strides@.len(),
        dot(usize_ints(pos@), usize_ints(strides@)) <= usize::MAX,
    ensures
        r == dot(usize_ints(pos@), usize_ints(strides@)),
{
    let ghost u = usize_ints(pos@);
    let ghost st = usize_ints(strides@);
    let n = pos.len();
    let mut acc: usize = 0;
    let mut d: usize = 0;
    proof {
        assert(terms(u.take(0), st) =~= Seq::<int>::empty());
    }
    while d < n
        invariant
            d <= n,
            n == pos@.len(),
            n <= strides@.len(),
            u == usize_ints(pos@),
            st == usize_ints(strides@),
            dot(u, st) <= usize::MAX,
            acc == dot(u.take(d as int), st),
        decreases n - d,
    {
        proof {
            lemma_dot_take_step(u, st, d as int);
            lemma_dot_take_le(u, st, d as int + 1);
            assert(u[d as int] * st[d as int] >= 0) by (nonlinear_arith)
                requires
                    u[d as int] >= 0,
                    st[d as int] >= 0,
            ;
        }
        acc = acc + pos[d] * strides[d];
        d += 1;
    }
    proof {
        assert(u.take(n as int) =~= u);
    }
    acc
}

/// The span of the first `k` axes of a packed row-major layout: the whole box minus the
/// volume of the remaining axes, plus one element.
proof fn lemma_packed_span(sh: Seq<usize>, strides: Seq<usize>, itemsize: int, k: int)
    requires
        0 <= k <= sh.len(),
        strides.len() == sh.len(),
        forall|d: int|
            0 <= d < sh.len() ==> #[trigger] strides[d] as int == packed_strides(
                usize_ints(sh),
                itemsize,
            )[d],
    ensures
        span_prefix(sh, strides, itemsize, k) == itemsize + itemsize * product_from(usize_ints(sh), 0)
            - itemsize * product_from(usize_ints(sh), k),
    decreases k,
{
    let si = usize_ints(sh);
    if k > 0 {
        lemma_packed_span(sh, strides, itemsize, k - 1);
        let p = product_from(si, k);
        let x = sh[k - 1] as int;
        assert(product_from(si, k - 1) == x * p);
        assert(strides[k - 1] as int == itemsize * p);
        assert(itemsize * p * (x - 1) == itemsize * (x * p) - itemsize * p) by (nonlinear_arith);
    }
}

// ---------------------------------------------------------------------------
// Planning a read
// ---------------------------------------------------------------------------

/// Every requested range touches exactly one block.
pub open spec fn single_block(index: Seq<Range<u64>>, block_shape: Seq<BlockSize>) -> bool {
    forall|d: int|
        0 <= d < index.len() ==> #[trigger] first_blocks(index, block_shape)[d] + 1 == last_blocks(
            index,
            block_shape,
        )[d]
}

/// The range starts and ends on a boundary of blocks of `s` items.
pub open spec fn on_boundaries(r: Range<u64>, s: BlockSize) -> bool {
    r.start as int % s as int == 0 && r.end as int % s as int == 0
}

/// Every requested range starts and ends on a block boundary.
pub open spec fn block_aligned(index: Seq<Range<u64>>, block_shape: Seq<BlockSize>) -> bool {
    forall|d: int| 0 <= d < index.len() ==> #[trigger] on_boundaries(index[d], block_shape[d])
}

/// The output strides are the row-major packed strides of the region (taken modulo `usize`'s
/// range, as the layout's offsets are).
pub open spec fn out_packed(index: Seq<Range<u64>>, itemsize: int, out_strides: Seq<usize>) -> bool {
    forall|d: int|
        0 <= d < index.len() ==> #[trigger] out_strides[d] as int == packed_strides(
            region_shape(index),
            itemsize,
        )[d] % (usize::MAX as int + 1)
}

/// A whole block decoded at the position of its first item in the output lands where its items
/// belong: the output is packed along every axis longer than 1, and past the first axis along
/// which blocks are longer than 1 the region is as long as a block.
pub open spec fn decodes_in_place(
    index: Seq<Range<u64>>,
    block_shape: Seq<BlockSize>,
    itemsize: int,
    out_strides: Seq<usize>,
) -> bool {
    &&& forall|d: int|
        0 <= d < index.len() ==> #[trigger] region_shape(index)[d] == 1 || out_strides[d] as int
            == packed_strides(region_shape(index), itemsize)[d] % (usize::MAX as int + 1)
    &&& forall|e: int, d: int|
        #![trigger block_shape[e], region_shape(index)[d]]
        0 <= e < d < index.len() && block_shape[e] > 1 ==> region_shape(index)[d]
            == block_shape[d]
}

/// The number of touched blocks along each dimension.
pub open spec fn touched_extent(index: Seq<Range<u64>>, block_shape: Seq<BlockSize>) -> Seq<u64> {
    Seq::new(
        index.len(),
        |d: int| (last_blocks(index, block_shape)[d] - first_blocks(index, block_shape)[d]) as u64,
    )
}

/// The position of block `b` among the touched blocks.
pub open spec fn touched_position(
    index: Seq<Range<u64>>,
    block_shape: Seq<BlockSize>,
    b: Seq<int>,
) -> Seq<int> {
    Seq::new(index.len(), |d: int| b[d] - first_blocks(index, block_shape)[d])
}

/// Where the part of one touched block goes: where it lies in the decoded block and in the
/// output.
pub struct BlockCopy {
    /// The block's row-major index in the block grid.
    pub block_id: u64,
    /// The byte offset, within the decoded block, of the part's first item.
    pub active_start: usize,
    /// The byte offset, within the output, of the part's first item.
    pub out_start: usize,
    /// The part's shape.
    pub extent: Vec<usize>,
    /// The part is the whole block and the output lays it out as the block does, so the block
    /// can be decoded straight into the output at `out_start`.
    pub direct: bool,
    /// The block's index in the block grid, per dimension.
    pub block_index: Ghost<Seq<int>>,
}

impl BlockCopy {
    /// The copy is that of the part of its block for reading `index` of an array of `shape` in
    /// blocks of `block_shape`, with items of `itemsize` bytes, into an output with
    /// `out_strides`.
    pub open spec fn describes(
        &self,
        shape: Seq<u64>,
        block_shape: Seq<BlockSize>,
        index: Seq<Range<u64>>,
        itemsize: int,
        out_strides: Seq<usize>,
    ) -> bool {
        let b = self.block_index@;
        &&& touched_block(index, block_shape, b)
        &&& self.block_id == ravel(grid_shape(shape, block_shape), b)
        &&& usize_ints(self.extent@) == part_extent(index, block_shape, b)
        &&& self.active_start == dot(
            part_inner(index, block_shape, b),
            packed_strides(crate::storage::params::block_ints(block_shape), itemsize),
        )
        &&& self.out_start == dot(part_origin(index, block_shape, b), usize_ints(out_strides))
        &&& self.direct == (!single_block(index, block_shape) && decodes_in_place(
            index,
            block_shape,
            itemsize,
            out_strides,
        ) && part_extent(index, block_shape, b) == crate::storage::params::block_ints(block_shape))
    }
}

/// How to read a region of a compact array.
pub enum CompactRead {
    /// The region is exactly one block, and the output is packed: decode the block with this
    /// row-major index straight into the output.
    Whole(u64),
    /// Decode each listed block and copy its part into the output.
    Parts(Vec<BlockCopy>),
}

/// The checks on a read request: one range per dimension, each within the array, and one
/// output stride per dimension.
pub open spec fn request_ok(shape: Seq<u64>, index: Seq<Range<u64>>, out_strides: Seq<usize>) -> bool {
    &&& index.len() == shape.len()
    &&& out_strides.len() == shape.len()
    &&& forall|d: int|
        0 <= d < shape.len() ==> #[trigger] index[d].start <= index[d].end <= shape[d]
}

/// The shape of the requested region, as byte-layout lengths.
pub open spec fn region_usize(index: Seq<Range<u64>>) -> Seq<usize> {
    Seq::new(index.len(), |d: int| (index[d].end - index[d].start) as usize)
}

/// The block shape, as byte-layout lengths.
pub open spec fn block_usize(block_shape: Seq<BlockSize>) -> Seq<usize> {
    Seq::new(block_shape.len(), |d: int| block_shape[d] as usize)
}

/// Along one dimension, the part of a touched block starts at or after the range's start, ends
/// at or before its end, and the block lies inside an array of `len` items.
proof fn lemma_part_in_range(begin: int, end: int, s: int, k: int, len: int)
    requires
        0 <= begin <= end <= len,
        s > 0,
        touches(begin, end, s, k),
    ensures
        0 <= k,
        begin <= k * s + clip_offset(begin, s, k),
        k * s + clip_offset(begin, s, k) + clip_len(begin, end, s, k) <= end,
        k < (len + s - 1) / s,
{
    lemma_part_fits(begin, end, s, k);
    vstd::arithmetic::div_mod::lemma_div_pos_is_pos(begin, s);
    assert((k + 1) * s == k * s + s) by (nonlinear_arith);
    vstd::arithmetic::div_mod::lemma_fundamental_div_mod(len + s - 1, s);
    assert(k < (len + s - 1) / s) by (nonlinear_arith)
        requires
            k * s < end,
            end <= len,
            s > 0,
            s * ((len + s - 1) / s) + (len + s - 1) % s == len + s - 1,
            0 <= (len + s - 1) % s < s,
    ;
}

/// Rounding up a division by a positive number gives at most the number divided, and it fits in
/// the same type.
proof fn lemma_ceil_div_le(x: int, s: int)
    requires
        0 <= x <= u64::MAX,
        s > 0,
    ensures
        0 <= (x + s - 1) / s <= x || x == 0,
        ((x + s - 1) / s) as u64 as int == (x + s - 1) / s,
{
    vstd::arithmetic::div_mod::lemma_fundamental_div_mod(x + s - 1, s);
    let q = (x + s - 1) / s;
    let r = (x + s - 1) % s;
    vstd::arithmetic::div_mod::lemma_div_pos_is_pos(x + s - 1, s);
    if x > 0 {
        assert(q <= x) by (nonlinear_arith)
            requires
                s * q + r == x + s - 1,
                0 <= r < s,
                s > 0,
                x > 0,
        ;
    } else {
        assert(q == 0) by (nonlinear_arith)
            requires
                s * q + r == s - 1,
                0 <= r < s,
                s > 0,
                q >= 0,
        ;
    }
}

/// A range that starts and ends on block boundaries and touches a single block is that block.
#[verifier::spinoff_prover]
proof fn lemma_whole_block(begin: int, end: int, s: int)
    requires
        0 <= begin <= end,
        s > 0,
        begin % s == 0,
        end % s == 0,
        begin / s + 1 == block_range_end(begin, end, s),
    ensures
        begin == (begin / s) * s,
        end == begin + s,
{
    vstd::arithmetic::div_mod::lemma_fundamental_div_mod(begin, s);
    vstd::arithmetic::div_mod::lemma_fundamental_div_mod(end, s);
    if begin == end {
        assert(begin / s == end / s);
    } else {
        assert(end + s - 1 == (end / s) * s + (s - 1)) by (nonlinear_arith)
            requires
                end == s * (end / s) + end % s,
                end % s == 0,
        ;
        vstd::arithmetic::div_mod::lemma_fundamental_div_mod_converse(
            end + s - 1,
            s,
            end / s,
            s - 1,
        );
        assert(end + s - 1 == s * (end / s) + (s - 1));
        assert(end == s * (begin / s + 1));
        assert(s * (begin / s + 1) == s * (begin / s) + s) by (nonlinear_arith);
        assert((begin / s) * s == s * (begin / s)) by (nonlinear_arith);
    }
    assert((begin / s) * s == s * (begin / s)) by (nonlinear_arith);
}

/// The copy of the part of touched block `b`.
#[verifier::spinoff_prover]
fn part_copy(
    shape: &[u64],
    block_shape: &[BlockSize],
    index: &[Range<u64>],
    grid: &[u64],
    b: &[u64],
    block_strides: &[usize],
    out_strides: &[usize],
    itemsize: usize,
    direct_ok: bool,
) -> (r: BlockCopy)
    requires
        valid_request(shape@, block_shape@, index@),
        out_strides@.len() == shape@.len(),
        grid@ == grid_shape(shape@, block_shape@),
        volume(grid@) <= u64::MAX,
        touched_block(index@, block_shape@, as_ints(b@)),
        block_strides@.len() == shape@.len(),
        forall|d: int|
            0 <= d < shape@.len() ==> #[trigger] block_strides@[d] as int == packed_strides(
                block_ints(block_shape@),
                itemsize as int,
            )[d],
        itemsize * product_from(block_ints(block_shape@), 0) <= usize::MAX,
        forall|d: int|
            0 <= d < index@.len() ==> #[trigger] index@[d].end - index@[d].start <= usize::MAX,
        crate::util::span_fits(region_usize(index@), out_strides@, itemsize as int),
    ensures
        r.block_index@ == as_ints(b@),
        r.block_id == ravel(grid@, as_ints(b@)),
        usize_ints(r.extent@) == part_extent(index@, block_shape@, as_ints(b@)),
        r.active_start == dot(
            part_inner(index@, block_shape@, as_ints(b@)),
            packed_strides(block_ints(block_shape@), itemsize as int),
        ),
        r.out_start == dot(part_origin(index@, block_shape@, as_ints(b@)), usize_ints(out_strides@)),
        r.direct == (direct_ok && part_extent(index@, block_shape@, as_ints(b@)) == block_ints(
            block_shape@,
        )),
{
    let ghost bi = as_ints(b@);
    let n = shape.len();
    let mut inner: Vec<usize> = Vec::new();
    let mut origin: Vec<usize> = Vec::new();
    let mut extent: Vec<usize> = Vec::new();
    let mut full = true;
    let mut d: usize = 0;
    while d < n
        invariant
            d <= n,
            n == shape@.len(),
            bi == as_ints(b@),
            valid_request(shape@, block_shape@, index@),
            touched_block(index@, block_shape@, bi),
            forall|e: int|
                0 <= e < index@.len() ==> #[trigger] index@[e].end - index@[e].start <= usize::MAX,
            inner@.len() == d,
            origin@.len() == d,
            extent@.len() == d,
            forall|e: int|
                0 <= e < d ==> #[trigger] inner@[e] as int == part_inner(index@, block_shape@, bi)[e],
            forall|e: int|
                0 <= e < d ==> #[trigger] origin@[e] as int == part_origin(index@, block_shape@, bi)[e],
            forall|e: int|
                0 <= e < d ==> #[trigger] extent@[e] as int == part_extent(index@, block_shape@, bi)[e],
            forall|e: int|
                0 <= e < d ==> #[trigger] origin@[e] + extent@[e] <= region_usize(index@)[e],
            forall|e: int| 0 <= e < d ==> #[trigger] extent@[e] >= 1,
            forall|e: int| 0 <= e < d ==> #[trigger] inner@[e] < block_shape@[e],
            full ==> forall|e: int| 0 <= e < d ==> #[trigger] extent@[e] == block_shape@[e],
            !full ==> exists|e: int| 0 <= e < d && #[trigger] extent@[e] != block_shape@[e],
            forall|e: int| 0 <= e < d ==> #[trigger] bi[e] < grid_shape(shape@, block_shape@)[e],
        decreases n - d,
    {
        let s = block_shape[d] as u64;
        let begin = index[d].start;
        let end = index[d].end;
        proof {
            assert(block_shape@[d as int] > 0);
            assert(touches(begin as int, end as int, s as int, bi[d as int]));
            lemma_part_in_range(begin as int, end as int, s as int, bi[d as int], shape@[d as int] as int);
        }
        let (off, len) = block_part_of(begin, end, s, b[d]);
        let pos = b[d] * s + off;
        let ghost old_extent = extent@;
        inner.push(off as usize);
        origin.push((pos - begin) as usize);
        extent.push(len as usize);
        let ghost full_before = full;
        full = full && len == s;
        proof {
            lemma_ceil_div_le(shape@[d as int] as int, s as int);
            if full_before && len == s {
                assert forall|e: int| 0 <= e < d + 1 implies #[trigger] extent@[e]
                    == block_shape@[e] by {
                    if e < d {
                        assert(old_extent[e] == block_shape@[e]);
                    }
                }
            }
            if !full_before {
                let w = choose|e: int| 0 <= e < d && #[trigger] old_extent[e] != block_shape@[e];
                assert(extent@[w] == old_extent[w]);
            }
            if len != s {
                assert(extent@[d as int] != block_shape@[d as int]);
            }
        }
        d += 1;
    }
    proof {
        assert(Seq::new(b@.len(), |d: int| b@[d] as int) =~= bi);
        assert forall|e: int| 0 <= e < n implies 0 <= #[trigger] bi[e] < grid@[e] by {
            assert(touches(index@[e].start as int, index@[e].end as int, block_shape@[e] as int, bi[e]));
            vstd::arithmetic::div_mod::lemma_div_pos_is_pos(index@[e].start as int, block_shape@[e] as int);
        }
    }
    let block_id = ravel_index(grid, b);
    proof {
        assert forall|e: int| 0 <= e < n implies #[trigger] block_strides@[e] as int == packed_strides(
            usize_ints(block_usize(block_shape@)),
            itemsize as int,
        )[e] by {
            assert(usize_ints(block_usize(block_shape@)) =~= block_ints(block_shape@));
        }
        lemma_dot_within_span(usize_ints(inner@), block_usize(block_shape@), block_strides@, itemsize as int, n as int);
        lemma_packed_span(block_usize(block_shape@), block_strides@, itemsize as int, n as int);
        assert(usize_ints(inner@).take(n as int) =~= usize_ints(inner@));
        assert(usize_ints(block_usize(block_shape@)) =~= block_ints(block_shape@));
        assert(product_from(block_ints(block_shape@), n as int) == 1);
        assert(usize_ints(block_strides@) =~= packed_strides(block_ints(block_shape@), itemsize as int));
        assert(usize_ints(inner@) =~= part_inner(index@, block_shape@, bi));
    }
    let active_start = offset_of(&inner, block_strides);
    proof {
        lemma_dot_within_span(usize_ints(origin@), region_usize(index@), out_strides@, itemsize as int, n as int);
        assert(usize_ints(origin@).take(n as int) =~= usize_ints(origin@));
        assert forall|e: int| 0 <= e < n implies #[trigger] region_usize(index@)[e] != 0 by {
            assert(origin@[e] + extent@[e] <= region_usize(index@)[e]);
            assert(extent@[e] >= 1);
        }
        assert(usize_ints(origin@) =~= part_origin(index@, block_shape@, bi));
        assert(usize_ints(extent@) =~= part_extent(index@, block_shape@, bi));
        if full {
            assert(part_extent(index@, block_shape@, bi) =~= block_ints(block_shape@));
        }
        if part_extent(index@, block_shape@, bi) == block_ints(block_shape@) {
            assert forall|e: int| 0 <= e < n implies #[trigger] extent@[e] == block_shape@[e] by {
                assert(part_extent(index@, block_shape@, bi)[e] == block_ints(block_shape@)[e]);
            }
        }
    }
    let out_start = offset_of(&origin, out_strides);
    BlockCopy {
        block_id,
        active_start,
        out_start,
        extent,
        direct: direct_ok && full,
        block_index: Ghost(bi),
    }
}

/// The requested ranges are those of `shape`, and the output has one stride per dimension.
fn request_checks(shape: &[u64], index: &[Range<u64>], out_strides: &[usize]) -> (r: bool)
    ensures
        r == request_ok(shape@, index@, out_strides@),
{
    let n = shape.len();
    if index.len() != n || out_strides.len() != n {
        return false;
    }
    let mut d: usize = 0;
    while d < n
        invariant
            d <= n,
            n == shape@.len(),
            n == index@.len(),
            forall|e: int| 0 <= e < d ==> #[trigger] index@[e].start <= index@[e].end <= shape@[e],
        decreases n - d,
    {
        if !(index[d].start <= index[d].end && index[d].end <= shape[d]) {
            return false;
        }
        d += 1;
    }
    true
}

/// Per dimension: the first and one past the last touched block, the number of blocks and the
/// region's length; and whether every range touches a single block and lies on block
/// boundaries.
#[verifier::spinoff_prover]
fn touched_ranges(shape: &[u64], block_shape: &[BlockSize], index: &[Range<u64>]) -> (r: (
    Vec<u64>,
    Vec<u64>,
    Vec<u64>,
    Vec<usize>,
    bool,
    bool,
))
    requires
        valid_request(shape@, block_shape@, index@),
        forall|d: int|
            0 <= d < index@.len() ==> #[trigger] index@[d].end - index@[d].start <= usize::MAX,
    ensures
        as_ints(r.0@) == first_blocks(index@, block_shape@),
        as_ints(r.1@) == last_blocks(index@, block_shape@),
        r.2@ == grid_shape(shape@, block_shape@),
        r.3@ == region_usize(index@),
        r.4 == single_block(index@, block_shape@),
        r.5 == block_aligned(index@, block_shape@),
{
    let n = shape.len();
    let mut first: Vec<u64> = Vec::new();
    let mut last: Vec<u64> = Vec::new();
    let mut grid: Vec<u64> = Vec::new();
    let mut region: Vec<usize> = Vec::new();
    let mut single = true;
    let mut aligned = true;
    let mut d: usize = 0;
    while d < n
        invariant
            d <= n,
            n == shape@.len(),
            valid_request(shape@, block_shape@, index@),
            forall|e: int|
                0 <= e < index@.len() ==> #[trigger] index@[e].end - index@[e].start <= usize::MAX,
            first@.len() == d,
            last@.len() == d,
            grid@.len() == d,
            region@.len() == d,
            forall|e: int|
                0 <= e < d ==> #[trigger] first@[e] as int == first_blocks(index@, block_shape@)[e],
            forall|e: int|
                0 <= e < d ==> #[trigger] last@[e] as int == last_blocks(index@, block_shape@)[e],
            forall|e: int| 0 <= e < d ==> #[trigger] grid@[e] == grid_shape(shape@, block_shape@)[e],
            forall|e: int| 0 <= e < d ==> #[trigger] region@[e] == region_usize(index@)[e],
            single == forall|e: int|
                0 <= e < d ==> #[trigger] first_blocks(index@, block_shape@)[e] + 1 == last_blocks(
                    index@,
                    block_shape@,
                )[e],
            aligned == forall|e: int|
                0 <= e < d ==> #[trigger] on_boundaries(index@[e], block_shape@[e]),
        decreases n - d,
    {
        let b = block_shape[d] as u64;
        let begin = index[d].start;
        let end = index[d].end;
        proof {
            assert(block_shape@[d as int] > 0);
            assert(begin <= end <= shape@[d as int]);
            lemma_ceil_div_le(shape@[d as int] as int, b as int);
        }
        let b_begin = begin / b;
        let b_end = crate::util::calc_block_end(begin, end, b);
        first.push(b_begin);
        last.push(b_end);
        grid.push(Idx::div_ceil(shape[d], b));
        region.push((end - begin) as usize);
        let ghost single_before = single;
        let ghost aligned_before = aligned;
        let ghost step_aligned = begin % b == 0 && end % b == 0;
        single = single && b_end > b_begin && b_end - b_begin == 1;
        aligned = aligned && begin % b == 0 && end % b == 0;
        proof {
            let dd = d as int;
            assert(first_blocks(index@, block_shape@)[dd] == b_begin as int);
            assert(last_blocks(index@, block_shape@)[dd] == b_end as int);
            if !single_before {
                let w = choose|e: int|
                    !(0 <= e < dd ==> #[trigger] first_blocks(index@, block_shape@)[e] + 1
                        == last_blocks(index@, block_shape@)[e]);
                assert(first_blocks(index@, block_shape@)[w] + 1 != last_blocks(index@, block_shape@)[w]);
            }
            assert(step_aligned == on_boundaries(index@[dd], block_shape@[dd]));
            if !aligned_before {
                let w = choose|e: int| !(0 <= e < dd ==> #[trigger] on_boundaries(index@[e], block_shape@[e]));
                assert(!on_boundaries(index@[w], block_shape@[w]));
            }
        }
        d += 1;
    }
    proof {
        assert(as_ints(first@) =~= first_blocks(index@, block_shape@));
        assert(as_ints(last@) =~= last_blocks(index@, block_shape@));
        assert(grid@ =~= grid_shape(shape@, block_shape@));
        assert(region@ =~= region_usize(index@));
    }
    (first, last, grid, region, single, aligned)
}

/// The strides are the row-major packed strides of `shape` (modulo `usize`'s range).
fn strides_packed(shape: &[usize], strides: &[usize], itemsize: usize) -> (r: bool)
    requires
        strides@.len() == shape@.len(),
    ensures
        r == forall|d: int|
            0 <= d < shape@.len() ==> #[trigger] strides@[d] as int == packed_strides(
                usize_ints(shape@),
                itemsize as int,
            )[d] % (usize::MAX as int + 1),
{
    let packed = crate::util::default_strides_slice(shape, itemsize);
    let n = shape.len();
    proof {
        assert(crate::util::idx_ints(shape@) =~= usize_ints(shape@));
        assert forall|e: int| 0 <= e < n implies #[trigger] packed@[e] as int == packed_strides(
            usize_ints(shape@),
            itemsize as int,
        )[e] % (usize::MAX as int + 1) by {
            assert(packed@[e].as_int() == packed_strides(
                crate::util::idx_ints(shape@),
                itemsize.as_int(),
            )[e] % <usize as Idx>::modulus());
        }
    }
    let mut d: usize = 0;
    while d < n
        invariant
            d <= n,
            n == shape@.len(),
            n == strides@.len(),
            packed@.len() == n,
            forall|e: int|
                0 <= e < n ==> #[trigger] packed@[e] as int == packed_strides(
                    usize_ints(shape@),
                    itemsize as int,
                )[e] % (usize::MAX as int + 1),
            forall|e: int| 0 <= e < d ==> #[trigger] strides@[e] == packed@[e],
        decreases n - d,
    {
        if strides[d] != packed[d] {
            return false;
        }
        d += 1;
    }
    proof {
        assert(usize_ints(shape@) =~= Seq::new(shape@.len(), |d: int| shape@[d].as_int()));
        assert forall|e: int| 0 <= e < n implies #[trigger] strides@[e] as int == packed_strides(
            usize_ints(shape@),
            itemsize as int,
        )[e] % (usize::MAX as int + 1) by {
            assert(strides@[e] == packed@[e]);
        }
    }
    true
}

/// A whole block decoded into an output of shape `region` with `out_strides`, at the position
/// of the block's first item, lands where its items belong (see [`decodes_in_place`]).
fn decodes_in_place_exec(
    region: &[usize],
    block_shape: &[BlockSize],
    out_strides: &[usize],
    itemsize: usize,
) -> (r: bool)
    requires
        block_shape@.len() == region@.len(),
        out_strides@.len() == region@.len(),
    ensures
        r == ((forall|d: int|
            0 <= d < region@.len() ==> #[trigger] region@[d] == 1 || out_strides@[d] as int
                == packed_strides(usize_ints(region@), itemsize as int)[d] % (usize::MAX as int
                + 1)) && (forall|e: int, d: int|
            #![trigger block_shape@[e], region@[d]]
            0 <= e < d < region@.len() && block_shape@[e] > 1 ==> region@[d] == block_shape@[d])),
{
    let packed = crate::util::default_strides_slice(region, itemsize);
    let n = region.len();
    proof {
        assert(crate::util::idx_ints(region@) =~= usize_ints(region@));
    }
    let mut seen_long = false;
    let mut d: usize = 0;
    while d < n
        invariant
            d <= n,
            n == region@.len(),
            n == block_shape@.len(),
            n == out_strides@.len(),
            packed@.len() == n,
            crate::util::idx_ints(region@) == usize_ints(region@),
            forall|e: int|
                0 <= e < n ==> #[trigger] packed@[e].as_int() == packed_strides(
                    crate::util::idx_ints(region@),
                    itemsize.as_int(),
                )[e] % <usize as Idx>::modulus(),
            forall|e: int|
                0 <= e < d ==> #[trigger] region@[e] == 1 || out_strides@[e] as int
                    == packed_strides(usize_ints(region@), itemsize as int)[e] % (usize::MAX as int
                    + 1),
            forall|e: int, f: int|
                #![trigger block_shape@[e], region@[f]]
                0 <= e < f < d && block_shape@[e] > 1 ==> region@[f] == block_shape@[f],
            seen_long == exists|e: int| 0 <= e < d && #[trigger] block_shape@[e] > 1,
        decreases n - d,
    {
        if region[d] != 1 && out_strides[d] != packed[d] {
            proof {
                assert(packed@[d as int].as_int() == packed@[d as int] as int);
            }
            return false;
        }
        if seen_long && region[d] != block_shape[d] as usize {
            proof {
                let w = choose|e: int| 0 <= e < d && #[trigger] block_shape@[e] > 1;
                assert(!(region@[d as int] == block_shape@[d as int]));
                assert(block_shape@[w] > 1);
            }
            return false;
        }
        let ghost seen_before = seen_long;
        if block_shape[d] > 1 {
            seen_long = true;
        }
        proof {
            assert(packed@[d as int].as_int() == packed@[d as int] as int);
            assert forall|e: int, f: int|
                #![trigger block_shape@[e], region@[f]]
                0 <= e < f < d + 1 && block_shape@[e] > 1 implies region@[f] == block_shape@[f] by {
                if f == d {
                    assert(seen_before);
                }
            }
            if block_shape@[d as int] > 1 {
                assert(block_shape@[d as int] > 1);
            }
            if !seen_before && block_shape@[d as int] <= 1 {
                assert forall|e: int| !(0 <= e < d + 1 && #[trigger] block_shape@[e] > 1) by {
                    if e < d {
                    }
                }
            }
        }
        d += 1;
    }
    true
}

/// A box whose axes are all 1 long holds exactly one position.
proof fn lemma_volume_ones(shape: Seq<u64>, k: int)
    requires
        0 <= k,
        forall|d: int| 0 <= d < shape.len() ==> #[trigger] shape[d] == 1,
    ensures
        suffix_volume(shape, k) == 1,
    decreases shape.len() - k,
{
    if k < shape.len() {
        lemma_volume_ones(shape, k + 1);
    }
}

/// Copy `c` is that of the touched block at row-major position `k` among the touched blocks.
pub open spec fn copy_placed(
    c: BlockCopy,
    k: int,
    shape: Seq<u64>,
    block_shape: Seq<BlockSize>,
    index: Seq<Range<u64>>,
    itemsize: int,
    out_strides: Seq<usize>,
) -> bool {
    &&& c.describes(shape, block_shape, index, itemsize, out_strides)
    &&& in_box(touched_extent(index, block_shape), touched_position(index, block_shape, c.block_index@))
    &&& ravel(touched_extent(index, block_shape), touched_position(index, block_shape, c.block_index@))
        == k
}

/// The copies are those of every touched block, each at its row-major position among the
/// touched blocks.
pub open spec fn copies_ok(
    copies: Seq<BlockCopy>,
    shape: Seq<u64>,
    block_shape: Seq<BlockSize>,
    index: Seq<Range<u64>>,
    itemsize: int,
    out_strides: Seq<usize>,
) -> bool {
    &&& copies.len() == volume(touched_extent(index, block_shape))
    &&& forall|k: int|
        0 <= k < copies.len() ==> copy_placed(
            #[trigger] copies[k],
            k,
            shape,
            block_shape,
            index,
            itemsize,
            out_strides,
        )
}

/// Plans reading the region `index` of a compact array of `shape`, stored in blocks of
/// `block_shape` items of `itemsize` bytes each, into an output laid out with `out_strides`.
///
/// A region that is exactly one block, read into a packed output, is decoded straight into the
/// output ([`CompactRead::Whole`]). Otherwise every touched block is listed, in row-major order
/// of the touched blocks, with where its part lies in the decoded block and in the output
/// ([`CompactRead::Parts`]). A request with a range outside the array, or a different number of
/// ranges or output strides than dimensions, is refused.
#[verifier::spinoff_prover]
pub fn plan_compact_read(
    shape: &[u64],
    block_shape: &[BlockSize],
    index: &[Range<u64>],
    itemsize: usize,
    out_strides: &[usize],
) -> (r: Result<CompactRead, Error>)
    requires
        block_shape@.len() == shape@.len(),
        forall|d: int| 0 <= d < shape@.len() ==> #[trigger] block_shape@[d] > 0,
        volume(grid_shape(shape@, block_shape@)) <= u64::MAX,
        itemsize * product_from(block_ints(block_shape@), 0) <= usize::MAX,
        request_ok(shape@, index@, out_strides@) ==> {
            &&& forall|d: int|
                0 <= d < index@.len() ==> #[trigger] index@[d].end - index@[d].start <= usize::MAX
            &&& crate::util::span_fits(region_usize(index@), out_strides@, itemsize as int)
        },
    ensures
        r is Err <==> !request_ok(shape@, index@, out_strides@),
        r matches Err(e) ==> e.kind == ErrorKind::InvalidArgument,
        r matches Ok(CompactRead::Whole(id)) ==> {
            &&& single_block(index@, block_shape@)
            &&& block_aligned(index@, block_shape@)
            &&& out_packed(index@, itemsize as int, out_strides@)
            &&& id == ravel(grid_shape(shape@, block_shape@), first_blocks(index@, block_shape@))
            &&& forall|d: int|
                0 <= d < index@.len() ==> #[trigger] index@[d].start == first_blocks(
                    index@,
                    block_shape@,
                )[d] * block_shape@[d] && index@[d].end == index@[d].start + block_shape@[d]
        },
        r matches Ok(CompactRead::Parts(copies)) ==> !(single_block(index@, block_shape@)
            && block_aligned(index@, block_shape@) && out_packed(index@, itemsize as int, out_strides@)),
        r matches Ok(CompactRead::Parts(copies)) ==> copies_ok(
            copies@,
            shape@,
            block_shape@,
            index@,
            itemsize as int,
            out_strides@,
        ),
{
    if !request_checks(shape, index, out_strides) {
        return Err(Error::new(ErrorKind::InvalidArgument));
    }
    let (first, last, grid, region, single, aligned) = touched_ranges(shape, block_shape, index);
    let n = shape.len();
    let block_strides = block_strides(block_shape, itemsize);
    proof {
        assert(usize_ints(block_strides@).len() == block_strides@.len());
        assert(block_strides@.len() == n);
        assert forall|e: int| 0 <= e < n implies #[trigger] block_strides@[e] as int
            == packed_strides(block_ints(block_shape@), itemsize as int)[e] by {
            assert(usize_ints(block_strides@)[e] == packed_strides(
                block_ints(block_shape@),
                itemsize as int,
            )[e]);
        }
        assert(usize_ints(block_strides@).len() == block_strides@.len());
        assert(region_shape(index@) =~= usize_ints(region@));
        assert(first_blocks(index@, block_shape@) =~= as_ints(first@));
    }
    if single {
        let packed_out = strides_packed(&region, out_strides, itemsize);
        proof {
            assert forall|e: int| 0 <= e < n implies 0 <= #[trigger] as_ints(first@)[e] < grid@[e] by {
                assert(first_blocks(index@, block_shape@)[e] + 1 == last_blocks(index@, block_shape@)[e]);
                assert(touches(
                    index@[e].start as int,
                    index@[e].end as int,
                    block_shape@[e] as int,
                    as_ints(first@)[e],
                ));
                assert(block_shape@[e] > 0);
                vstd::arithmetic::div_mod::lemma_div_pos_is_pos(index@[e].start as int, block_shape@[e] as int);
                lemma_part_in_range(
                    index@[e].start as int,
                    index@[e].end as int,
                    block_shape@[e] as int,
                    as_ints(first@)[e],
                    shape@[e] as int,
                );
                lemma_ceil_div_le(shape@[e] as int, block_shape@[e] as int);
                assert(grid@[e] == grid_shape(shape@, block_shape@)[e]);
            }
            assert(Seq::new(first@.len(), |d: int| first@[d] as int) =~= as_ints(first@));
        }
        let id = ravel_index(&grid, &first);
        if aligned && packed_out {
            proof {
                assert forall|d: int| 0 <= d < index@.len() implies #[trigger] index@[d].start
                    == first_blocks(index@, block_shape@)[d] * block_shape@[d] && index@[d].end
                    == index@[d].start + block_shape@[d] by {
                    assert(block_shape@[d] > 0);
                    assert(on_boundaries(index@[d], block_shape@[d]));
                    assert(first_blocks(index@, block_shape@)[d] + 1 == last_blocks(index@, block_shape@)[d]);
                    lemma_whole_block(index@[d].start as int, index@[d].end as int, block_shape@[d] as int);
                }
            }
            return Ok(CompactRead::Whole(id));
        }
        proof {
            assert forall|e: int| 0 <= e < n implies #[trigger] touches(
                index@[e].start as int,
                index@[e].end as int,
                block_shape@[e] as int,
                as_ints(first@)[e],
            ) by {
                assert(first_blocks(index@, block_shape@)[e] + 1 == last_blocks(index@, block_shape@)[e]);
            }
        }
        let copy = part_copy(
            shape,
            block_shape,
            index,
            &grid,
            &first,
            &block_strides,
            out_strides,
            itemsize,
            false,
        );
        let mut copies: Vec<BlockCopy> = Vec::new();
        copies.push(copy);
        proof {
            let te = touched_extent(index@, block_shape@);
            assert forall|e: int| 0 <= e < te.len() implies #[trigger] te[e] == 1 by {
                assert(first_blocks(index@, block_shape@)[e] + 1 == last_blocks(index@, block_shape@)[e]);
            }
            lemma_volume_ones(te, 0);
            let z = touched_position(index@, block_shape@, as_ints(first@));
            assert forall|e: int| 0 <= e < z.len() implies #[trigger] z[e] == 0 by {}
            crate::util::iter::nd::lemma_ravel_zero(te, z, 0);
            assert(in_box(te, z));
            assert(copies@[0].describes(shape@, block_shape@, index@, itemsize as int, out_strides@));
        }
        return Ok(CompactRead::Parts(copies));
    }
    let in_place = decodes_in_place_exec(&region, block_shape, out_strides, itemsize);
    proof {
        let rs = region_shape(index@);
        assert(usize_ints(region@) == rs);
        let c1 = forall|d: int|
            0 <= d < region@.len() ==> #[trigger] region@[d] == 1 || out_strides@[d] as int
                == packed_strides(usize_ints(region@), itemsize as int)[d] % (usize::MAX as int + 1);
        let c2 = forall|e: int, d: int|
            #![trigger block_shape@[e], region@[d]]
            0 <= e < d < region@.len() && block_shape@[e] > 1 ==> region@[d] == block_shape@[d];
        let s1 = forall|d: int|
            0 <= d < index@.len() ==> #[trigger] rs[d] == 1 || out_strides@[d] as int
                == packed_strides(rs, itemsize as int)[d] % (usize::MAX as int + 1);
        let s2 = forall|e: int, d: int|
            #![trigger block_shape@[e], rs[d]]
            0 <= e < d < index@.len() && block_shape@[e] > 1 ==> rs[d] == block_shape@[d];
        assert(c1 == s1) by {
            if c1 {
                assert forall|d: int| 0 <= d < index@.len() implies #[trigger] rs[d] == 1 || out_strides@[d] as int
                    == packed_strides(rs, itemsize as int)[d] % (usize::MAX as int + 1) by {
                    assert(region@[d] == 1 || out_strides@[d] as int
                        == packed_strides(usize_ints(region@), itemsize as int)[d] % (usize::MAX as int + 1));
                    assert(usize_ints(region@)[d] == rs[d]);
                }
            }
            if s1 {
                assert forall|d: int| 0 <= d < region@.len() implies #[trigger] region@[d] == 1 || out_strides@[d] as int
                    == packed_strides(usize_ints(region@), itemsize as int)[d] % (usize::MAX as int + 1) by {
                    assert(rs[d] == 1 || out_strides@[d] as int
                        == packed_strides(rs, itemsize as int)[d] % (usize::MAX as int + 1));
                    assert(usize_ints(region@)[d] == rs[d]);
                }
            }
        }
        assert(c2 == s2) by {
            if c2 {
                assert forall|e: int, d: int|
                    #![trigger block_shape@[e], rs[d]]
                    0 <= e < d < index@.len() && block_shape@[e] > 1 implies rs[d] == block_shape@[d] by {
                    assert(region@[d] == block_shape@[d]);
                    assert(usize_ints(region@)[d] == rs[d]);
                }
            }
            if s2 {
                assert forall|e: int, d: int|
                    #![trigger block_shape@[e], region@[d]]
                    0 <= e < d < region@.len() && block_shape@[e] > 1 implies region@[d] == block_shape@[d] by {
                    assert(rs[d] == block_shape@[d]);
                    assert(usize_ints(region@)[d] == rs[d]);
                }
            }
        }
        assert(in_place == decodes_in_place(index@, block_shape@, itemsize as int, out_strides@));
        assert(as_ints(first@).len() == n);
        assert(as_ints(last@).len() == n);
    }
    let mut ext: Vec<u64> = Vec::new();
    let mut d: usize = 0;
    while d < n
        invariant
            d <= n,
            n == first@.len(),
            n == last@.len(),
            n == index@.len(),
            as_ints(first@) == first_blocks(index@, block_shape@),
            as_ints(last@) == last_blocks(index@, block_shape@),
            valid_request(shape@, block_shape@, index@),
            ext@.len() == d,
            forall|e: int|
                0 <= e < d ==> #[trigger] ext@[e] == touched_extent(index@, block_shape@)[e],
            forall|e: int| 0 <= e < d ==> #[trigger] first@[e] <= last@[e],
        decreases n - d,
    {
        proof {
            assert(block_shape@[d as int] > 0);
            vstd::arithmetic::div_mod::lemma_div_is_ordered(
                index@[d as int].start as int,
                index@[d as int].end as int,
                block_shape@[d as int] as int,
            );
            vstd::arithmetic::div_mod::lemma_div_is_ordered(
                index@[d as int].end as int,
                index@[d as int].end as int + block_shape@[d as int] - 1,
                block_shape@[d as int] as int,
            );
            assert(as_ints(first@)[d as int] == first_blocks(index@, block_shape@)[d as int]);
            assert(as_ints(last@)[d as int] == last_blocks(index@, block_shape@)[d as int]);
        }
        ext.push(last[d] - first[d]);
        d += 1;
    }
    proof {
        assert(ext@ =~= touched_extent(index@, block_shape@));
    }
    let ghost fl = forall|e: int| 0 <= e < n ==> #[trigger] first@[e] <= last@[e];
    assert(fl);
    let mut iter = IdxIter::new(ext);
    let mut copies: Vec<BlockCopy> = Vec::new();
    let mut more = true;
    let ghost te = touched_extent(index@, block_shape@);
    while more
        invariant
            iter.walk().wf(),
            iter.walk().begin() == crate::util::iter::nd::zeros(iter.walk().extent().len()),
            iter.walk().extent() == te,
            te == touched_extent(index@, block_shape@),
            more ==> copies@.len() == iter.walk().position(),
            !more ==> copies@.len() == volume(te),
            n == shape@.len(),
            n == first@.len(),
            n == last@.len(),
            forall|e: int| 0 <= e < n ==> #[trigger] first@[e] <= last@[e],
            as_ints(first@) == first_blocks(index@, block_shape@),
            as_ints(last@) == last_blocks(index@, block_shape@),
            !single_block(index@, block_shape@),
            in_place == decodes_in_place(index@, block_shape@, itemsize as int, out_strides@),
            valid_request(shape@, block_shape@, index@),
            request_ok(shape@, index@, out_strides@),
            grid@ == grid_shape(shape@, block_shape@),
            volume(grid@) <= u64::MAX,
            block_strides@.len() == n,
            forall|e: int|
                0 <= e < n ==> #[trigger] block_strides@[e] as int == packed_strides(
                    block_ints(block_shape@),
                    itemsize as int,
                )[e],
            itemsize * product_from(block_ints(block_shape@), 0) <= usize::MAX,
            forall|e: int|
                0 <= e < index@.len() ==> #[trigger] index@[e].end - index@[e].start <= usize::MAX,
            crate::util::span_fits(region_usize(index@), out_strides@, itemsize as int),
            forall|k: int|
                0 <= k < copies@.len() ==> copy_placed(
                    #[trigger] copies@[k],
                    k,
                    shape@,
                    block_shape@,
                    index@,
                    itemsize as int,
                    out_strides@,
                ),
        decreases (if more { volume(te) - iter.walk().position() + 1 } else { 0 }),
    {
        proof {
            iter.walk().lemma_wf();
        }
        match iter.next() {
            None => {
                more = false;
            },
            Some(idx) => {
                let ghost v = as_ints(idx@);
                let mut b: Vec<u64> = Vec::new();
                let mut d: usize = 0;
                while d < n
                    invariant
                        d <= n,
                        n == first@.len(),
                        n == index@.len(),
                        in_box(te, v),
                        v == as_ints(idx@),
                        te == touched_extent(index@, block_shape@),
                        as_ints(first@) == first_blocks(index@, block_shape@),
                        as_ints(last@) == last_blocks(index@, block_shape@),
                        valid_request(shape@, block_shape@, index@),
                        n == last@.len(),
                        forall|e: int| 0 <= e < n ==> #[trigger] first@[e] <= last@[e],
                        b@.len() == d,
                        forall|e: int| 0 <= e < d ==> #[trigger] b@[e] == first@[e] + idx@[e],
                    decreases n - d,
                {
                    proof {
                        assert(0 <= v[d as int] < te[d as int]);
                        assert(first@[d as int] <= last@[d as int]);
                        assert(as_ints(first@)[d as int] == first_blocks(index@, block_shape@)[d as int]);
                        assert(as_ints(last@)[d as int] == last_blocks(index@, block_shape@)[d as int]);
                    }
                    b.push(first[d] + idx[d]);
                    d += 1;
                }
                proof {
                    assert forall|e: int| 0 <= e < n implies #[trigger] touches(
                        index@[e].start as int,
                        index@[e].end as int,
                        block_shape@[e] as int,
                        as_ints(b@)[e],
                    ) by {
                        assert(0 <= v[e] < te[e]);
                        assert(first@[e] <= last@[e]);
                        assert(as_ints(first@)[e] == first_blocks(index@, block_shape@)[e]);
                        assert(as_ints(last@)[e] == last_blocks(index@, block_shape@)[e]);
                        assert(b@[e] == first@[e] + idx@[e]);
                    }
                }
                let copy = part_copy(
                    shape,
                    block_shape,
                    index,
                    &grid,
                    &b,
                    &block_strides,
                    out_strides,
                    itemsize,
                    in_place,
                );
                proof {
                    assert(touched_position(index@, block_shape@, as_ints(b@)) =~= v);
                    assert(copy_placed(
                        copy,
                        copies@.len() as int,
                        shape@,
                        block_shape@,
                        index@,
                        itemsize as int,
                        out_strides@,
                    ));
                }
                let ghost before = copies@;
                copies.push(copy);
                proof {
                    assert forall|k: int| 0 <= k < copies@.len() implies copy_placed(
                        #[trigger] copies@[k],
                        k,
                        shape@,
                        block_shape@,
                        index@,
                        itemsize as int,
                        out_strides@,
                    ) by {
                        if k < before.len() {
                            assert(copies@[k] == before[k]);
                        }
                    }
                }
            },
        }
    }
    proof {
        assert(!single_block(index@, block_shape@));
        assert(copies@.len() == volume(touched_extent(index@, block_shape@)));
        assert(copies_ok(copies@, shape@, block_shape@, index@, itemsize as int, out_strides@));
    }
    Ok(CompactRead::Parts(copies))
}

/// A planned read covers the region exactly: every position of the region lies in the part of
/// exactly one listed copy, the copy of the block holding the item there, and within that block
/// the item sits at its position in the block.
#[verifier::spinoff_prover]
pub proof fn lemma_copies_cover(
    copies: Seq<BlockCopy>,
    shape: Seq<u64>,
    block_shape: Seq<BlockSize>,
    index: Seq<Range<u64>>,
    itemsize: int,
    out_strides: Seq<usize>,
    p: Seq<int>,
)
    requires
        valid_request(shape, block_shape, index),
        copies_ok(copies, shape, block_shape, index, itemsize, out_strides),
        p.len() == index.len(),
        forall|d: int| 0 <= d < p.len() ==> 0 <= #[trigger] p[d] < index[d].end - index[d].start,
    ensures
        exists|k: int|
            0 <= k < copies.len() && #[trigger] copies[k].block_index@ == holding_block(
                index,
                block_shape,
                p,
            ),
        forall|k: int|
            0 <= k < copies.len() && part_covers(index, block_shape, #[trigger] copies[k].block_index@, p)
                ==> copies[k].block_index@ == holding_block(index, block_shape, p),
        forall|k1: int, k2: int|
            0 <= k1 < copies.len() && 0 <= k2 < copies.len() && #[trigger] copies[k1].block_index@
                == #[trigger] copies[k2].block_index@ ==> k1 == k2,
{
    let te = touched_extent(index, block_shape);
    let h = holding_block(index, block_shape, p);
    lemma_parts_tile(shape, block_shape, index, p, h);
    let hp = touched_position(index, block_shape, h);
    assert forall|d: int| 0 <= d < te.len() implies 0 <= #[trigger] hp[d] < te[d] by {
        assert(touches(index[d].start as int, index[d].end as int, block_shape[d] as int, h[d]));
        assert(block_shape[d] > 0);
        lemma_ceil_div_le(index[d].end as int, block_shape[d] as int);
        vstd::arithmetic::div_mod::lemma_div_pos_is_pos(index[d].start as int, block_shape[d] as int);
    }
    assert(in_box(te, hp));
    lemma_ravel_bounds(te, hp, 0);
    let k = ravel(te, hp);
    assert(copy_placed(copies[k], k, shape, block_shape, index, itemsize, out_strides));
    let cp = touched_position(index, block_shape, copies[k].block_index@);
    crate::util::iter::nd::lemma_ravel_one_to_one(te, cp, hp);
    assert(copies[k].block_index@ =~= h) by {
        assert forall|d: int| 0 <= d < h.len() implies copies[k].block_index@[d] == h[d] by {
            assert(cp[d] == hp[d]);
        }
    }
    assert forall|j: int|
        0 <= j < copies.len() && part_covers(index, block_shape, #[trigger] copies[j].block_index@, p)
            implies copies[j].block_index@ == h by {
        assert(copy_placed(copies[j], j, shape, block_shape, index, itemsize, out_strides));
        lemma_parts_tile(shape, block_shape, index, p, copies[j].block_index@);
    }
    assert forall|k1: int, k2: int|
        0 <= k1 < copies.len() && 0 <= k2 < copies.len() && #[trigger] copies[k1].block_index@
            == #[trigger] copies[k2].block_index@ implies k1 == k2 by {
        assert(copy_placed(copies[k1], k1, shape, block_shape, index, itemsize, out_strides));
        assert(copy_placed(copies[k2], k2, shape, block_shape, index, itemsize, out_strides));
    }
}

// ---------------------------------------------------------------------------
// Copying a part
// ---------------------------------------------------------------------------

/// The byte strides of a decoded block: the row-major packed strides of `block_shape` for items
/// of `itemsize` bytes.
pub fn block_strides(block_shape: &[BlockSize], itemsize: usize) -> (r: Vec<usize>)
    requires
        forall|d: int| 0 <= d < block_shape@.len() ==> #[trigger] block_shape@[d] > 0,
        itemsize * product_from(block_ints(block_shape@), 0) <= usize::MAX,
    ensures
        usize_ints(r@) == packed_strides(block_ints(block_shape@), itemsize as int),
{
    let n = block_shape.len();
    let ghost bi = block_ints(block_shape@);
    let mut bshape: Vec<usize> = Vec::new();
    let mut d: usize = 0;
    while d < n
        invariant
            d <= n,
            n == block_shape@.len(),
            bshape@.len() == d,
            forall|e: int| 0 <= e < d ==> #[trigger] bshape@[e] == block_shape@[e] as usize,
        decreases n - d,
    {
        bshape.push(block_shape[d] as usize);
        d += 1;
    }
    let strides = crate::util::default_strides_slice(&bshape, itemsize);
    proof {
        assert(crate::util::idx_ints(bshape@) =~= bi);
        assert forall|e: int| 0 <= e < n implies #[trigger] bi[e] >= 1 by {
            assert(block_shape@[e] > 0);
        }
        assert forall|e: int| 0 <= e < n implies #[trigger] usize_ints(strides@)[e]
            == packed_strides(bi, itemsize as int)[e] by {
            lemma_product_from_bounds(bi, e + 1);
            let p = product_from(bi, e + 1);
            assert(itemsize * p <= itemsize * product_from(bi, 0)) by (nonlinear_arith)
                requires
                    p <= product_from(bi, 0),
                    itemsize >= 0,
            ;
            assert(itemsize * p >= 0) by (nonlinear_arith)
                requires
                    p >= 1,
                    itemsize >= 0,
            ;
            assert(strides@[e].as_int() == packed_strides(
                crate::util::idx_ints(bshape@),
                itemsize.as_int(),
            )[e] % <usize as Idx>::modulus());
            vstd::arithmetic::div_mod::lemma_small_mod(
                (itemsize * p) as nat,
                <usize as Idx>::modulus() as nat,
            );
        }
        assert(usize_ints(strides@) =~= packed_strides(bi, itemsize as int));
    }
    strides
}

/// Copies the part of a decoded block into the output, as `copy` lays it out: every item of the
/// part, at `copy.active_start` plus its offset under `block_strides` in `decoded`, goes to
/// `copy.out_start` plus its offset under `out_strides` in `out`; every other byte of `out` keeps
/// its value.
pub fn copy_block_part(
    copy: &BlockCopy,
    block_strides: &[usize],
    decoded: &[u8],
    out: &mut [u8],
    out_strides: &[usize],
    itemsize: usize,
)
    requires
        block_strides@.len() == copy.extent@.len(),
        out_strides@.len() == copy.extent@.len(),
        seq_prod(usize_ints(copy.extent@)) <= usize::MAX,
        copy.active_start <= decoded@.len(),
        copy.out_start <= old(out)@.len(),
        region_fits(
            copy.extent@,
            block_strides@,
            itemsize as int,
            decoded@.len() - copy.active_start,
        ),
        region_fits(copy.extent@, out_strides@, itemsize as int, old(out)@.len() - copy.out_start),
        region_disjoint(copy.extent@, out_strides@, itemsize as int),
    ensures
        final(out)@ == old(out)@.take(copy.out_start as int) + copied(
            old(out)@.skip(copy.out_start as int),
            decoded@.skip(copy.active_start as int),
            copy.extent@,
            block_strides@,
            out_strides@,
            itemsize as int,
        ),
{
    let copier = NdCopier::new(itemsize);
    let (_, src) = decoded.split_at(copy.active_start);
    let (head, dst) = out.split_at_mut(copy.out_start);
    proof {
        assert(src@ =~= decoded@.skip(copy.active_start as int));
        assert(dst@ =~= old(out)@.skip(copy.out_start as int));
    }
    copier.copy(src, dst, &copy.extent, block_strides, out_strides);
    proof {
        assert(head@ =~= old(out)@.take(copy.out_start as int));
    }
}

/// The copy of a planned part meets what [`copy_block_part`] needs when the decoded block is a
/// whole block's bytes and the output holds the region without overlapping items: the part lies
/// within the decoded block and within the output, and its items do not overlap in the output.
#[verifier::spinoff_prover]
pub proof fn lemma_copy_fits(
    copy: BlockCopy,
    shape: Seq<u64>,
    block_shape: Seq<BlockSize>,
    index: Seq<Range<u64>>,
    itemsize: int,
    out_strides: Seq<usize>,
    block_strides: Seq<usize>,
    decoded_len: int,
    out_len: int,
)
    requires
        valid_request(shape, block_shape, index),
        out_strides.len() == shape.len(),
        copy.describes(shape, block_shape, index, itemsize, out_strides),
        itemsize >= 0,
        usize_ints(block_strides) == packed_strides(block_ints(block_shape), itemsize),
        decoded_len == itemsize * product_from(block_ints(block_shape), 0),
        forall|d: int|
            0 <= d < index.len() ==> #[trigger] index[d].end - index[d].start <= usize::MAX,
        out_len >= crate::util::strided_span(region_usize(index), out_strides, itemsize),
        region_disjoint(region_usize(index), out_strides, itemsize),
    ensures
        copy.active_start <= decoded_len,
        copy.out_start <= out_len,
        region_fits(copy.extent@, block_strides, itemsize, decoded_len - copy.active_start),
        region_fits(copy.extent@, out_strides, itemsize, out_len - copy.out_start),
        region_disjoint(copy.extent@, out_strides, itemsize),
{
    let b = copy.block_index@;
    let n = index.len() as int;
    let inner = part_inner(index, block_shape, b);
    let origin = part_origin(index, block_shape, b);
    let ext = part_extent(index, block_shape, b);
    let bu = block_usize(block_shape);
    let ru = region_usize(index);
    let bs = usize_ints(block_strides);
    let os = usize_ints(out_strides);
    assert(bs.len() == block_strides.len());
    assert(block_strides.len() == n);
    assert(usize_ints(copy.extent@).len() == copy.extent@.len());
    assert(copy.extent@.len() == n);
    assert forall|d: int| 0 <= d < n implies {
        &&& 0 <= #[trigger] inner[d]
        &&& inner[d] + ext[d] <= bu[d]
        &&& 0 <= origin[d]
        &&& origin[d] + ext[d] <= ru[d]
        &&& ext[d] >= 1
    } by {
        assert(block_shape[d] > 0);
        assert(touches(index[d].start as int, index[d].end as int, block_shape[d] as int, b[d]));
        lemma_part_in_range(
            index[d].start as int,
            index[d].end as int,
            block_shape[d] as int,
            b[d],
            shape[d] as int,
        );
        lemma_part_fits(index[d].start as int, index[d].end as int, block_shape[d] as int, b[d]);
    }
    assert(usize_ints(bu) =~= block_ints(block_shape));
    assert forall|d: int| 0 <= d < n implies #[trigger] block_strides[d] as int == packed_strides(
        usize_ints(bu),
        itemsize,
    )[d] by {
        assert(bs[d] == packed_strides(block_ints(block_shape), itemsize)[d]);
    }
    lemma_packed_span(bu, block_strides, itemsize, n);
    assert(product_from(usize_ints(bu), n) == 1);
    assert(!(exists|d: int| 0 <= d < n && ru[d] == 0)) by {
        assert forall|d: int| 0 <= d < n implies ru[d] != 0 by {
            assert(0 <= inner[d]);
            assert(origin[d] + ext[d] <= ru[d] && ext[d] >= 1);
        }
    }
    assert(crate::util::span_ndim(ru, out_strides) == n);
    // Every item of the part, shifted to its place in the block and in the region.
    assert(span_prefix(bu, block_strides, itemsize, n) == decoded_len);
    assert(crate::util::strided_span(ru, out_strides, itemsize) == span_prefix(ru, out_strides, itemsize, n));
    assert forall|u: Seq<int>| #[trigger] within(usize_ints(copy.extent@), u) implies {
        &&& dot(u, bs) + copy.active_start + itemsize <= decoded_len
        &&& dot(u, os) + copy.out_start + itemsize <= out_len
    } by {
        let ib = Seq::new(n as nat, |d: int| inner[d] + u[d]);
        let ob = Seq::new(n as nat, |d: int| origin[d] + u[d]);
        assert(u.len() == n);
        assert(inner.len() == n);
        lemma_dot_add(inner, u, bs);
        lemma_dot_add(origin, u, os);
        assert(Seq::new(inner.len(), |d: int| inner[d] + u[d]) =~= ib);
        assert(Seq::new(origin.len(), |d: int| origin[d] + u[d]) =~= ob);
        assert forall|d: int| 0 <= d < n implies 0 <= #[trigger] ib[d] < bu[d] by {
            assert(0 <= u[d] < usize_ints(copy.extent@)[d]);
            assert(usize_ints(copy.extent@)[d] == ext[d]);
            assert(0 <= inner[d]);
        }
        assert forall|d: int| 0 <= d < n implies 0 <= #[trigger] ob[d] < ru[d] by {
            assert(0 <= u[d] < usize_ints(copy.extent@)[d]);
            assert(usize_ints(copy.extent@)[d] == ext[d]);
            assert(0 <= inner[d]);
        }
        lemma_dot_within_span(ib, bu, block_strides, itemsize, n);
        lemma_dot_within_span(ob, ru, out_strides, itemsize, n);
        assert(ib.take(n) =~= ib);
        assert(ob.take(n) =~= ob);
        assert(copy.active_start == dot(inner, bs));
        assert(copy.out_start == dot(origin, os));
    }
    // the part's starts
    let z = Seq::new(n as nat, |d: int| 0int);
    assert(within(usize_ints(copy.extent@), z)) by {
        assert forall|d: int| 0 <= d < z.len() implies 0 <= #[trigger] z[d] < usize_ints(copy.extent@)[d] by {
            assert(usize_ints(copy.extent@)[d] == ext[d]);
            assert(0 <= inner[d]);
        }
    }
    lemma_dot_zero(z, bs);
    lemma_dot_zero(z, os);
    // no two items of the part overlap in the output
    assert forall|u: Seq<int>, v: Seq<int>|
        #![trigger within(usize_ints(copy.extent@), u), within(usize_ints(copy.extent@), v)]
        within(usize_ints(copy.extent@), u) && within(usize_ints(copy.extent@), v) && u != v implies
            crate::util::nd_copy::element_offset(out_strides, u) + itemsize
            <= crate::util::nd_copy::element_offset(out_strides, v)
            || crate::util::nd_copy::element_offset(out_strides, v) + itemsize
            <= crate::util::nd_copy::element_offset(out_strides, u) by {
        let ou = Seq::new(n as nat, |d: int| origin[d] + u[d]);
        let ov = Seq::new(n as nat, |d: int| origin[d] + v[d]);
        lemma_dot_add(origin, u, os);
        lemma_dot_add(origin, v, os);
        assert(Seq::new(origin.len(), |d: int| origin[d] + u[d]) =~= ou);
        assert(Seq::new(origin.len(), |d: int| origin[d] + v[d]) =~= ov);
        assert(within(usize_ints(ru), ou)) by {
            assert forall|d: int| 0 <= d < ou.len() implies 0 <= #[trigger] ou[d] < usize_ints(ru)[d] by {
                assert(0 <= u[d] < usize_ints(copy.extent@)[d]);
                assert(usize_ints(copy.extent@)[d] == ext[d]);
                assert(0 <= inner[d]);
            }
        }
        assert(within(usize_ints(ru), ov)) by {
            assert forall|d: int| 0 <= d < ov.len() implies 0 <= #[trigger] ov[d] < usize_ints(ru)[d] by {
                assert(0 <= v[d] < usize_ints(copy.extent@)[d]);
                assert(usize_ints(copy.extent@)[d] == ext[d]);
                assert(0 <= inner[d]);
            }
        }
        if ou == ov {
            assert(u =~= v) by {
                assert forall|d: int| 0 <= d < u.len() implies u[d] == v[d] by {
                    assert(ou[d] == ov[d]);
                }
            }
        }
    }
}

/// The offset of the all-zero position is zero.
proof fn lemma_dot_zero(z: Seq<int>, s: Seq<int>)
    requires
        forall|d: int| 0 <= d < z.len() ==> #[trigger] z[d] == 0,
    ensures
        dot(z, s) == 0,
    decreases z.len(),
{
    if z.len() > 0 {
        lemma_dot_zero(z.drop_last(), s);
        assert(terms(z, s).drop_last() =~= terms(z.drop_last(), s));
    } else {
        assert(terms(z, s) =~= Seq::<int>::empty());
    }
}

/// Products of two sequences that agree from `k` on are equal from `k` on.
proof fn lemma_product_from_eq(a: Seq<int>, b: Seq<int>, k: int)
    requires
        0 <= k,
        a.len() == b.len(),
        forall|f: int| k <= f < a.len() ==> #[trigger] a[f] == b[f],
    ensures
        product_from(a, k) == product_from(b, k),
    decreases a.len() - k,
{
    if k < a.len() {
        lemma_product_from_eq(a, b, k + 1);
    }
}

/// Offsets with equal terms are equal.
proof fn lemma_dot_same_terms(u: Seq<int>, s: Seq<int>, t: Seq<int>)
    requires
        forall|d: int| 0 <= d < u.len() ==> #[trigger] (u[d] * s[d]) == u[d] * t[d],
    ensures
        dot(u, s) == dot(u, t),
{
    assert(terms(u, s) =~= terms(u, t)) by {
        assert forall|d: int| 0 <= d < u.len() implies terms(u, s)[d] == terms(u, t)[d] by {
            assert(u[d] * s[d] == u[d] * t[d]);
        }
    }
}

/// A copy marked `direct` may decode its block straight into the output at `out_start`: every
/// item of the block lies at the same offset under the output's strides as under the block's
/// own packed strides.
#[verifier::spinoff_prover]
pub proof fn lemma_direct_in_place(
    copy: BlockCopy,
    shape: Seq<u64>,
    block_shape: Seq<BlockSize>,
    index: Seq<Range<u64>>,
    itemsize: int,
    out_strides: Seq<usize>,
    u: Seq<int>,
)
    requires
        valid_request(shape, block_shape, index),
        out_strides.len() == shape.len(),
        copy.describes(shape, block_shape, index, itemsize, out_strides),
        copy.direct,
        itemsize >= 0,
        itemsize * product_from(block_ints(block_shape), 0) <= usize::MAX,
        within(block_ints(block_shape), u),
    ensures
        dot(u, usize_ints(out_strides)) == dot(
            u,
            packed_strides(block_ints(block_shape), itemsize),
        ),
{
    let b = copy.block_index@;
    let n = index.len() as int;
    let bi = block_ints(block_shape);
    let rs = region_shape(index);
    let pb = packed_strides(bi, itemsize);
    let os = usize_ints(out_strides);
    let m = usize::MAX as int + 1;
    assert forall|d: int| 0 <= d < n implies #[trigger] bi[d] >= 1 by {
        assert(block_shape[d] > 0);
    }
    assert forall|d: int| 0 <= d < u.len() implies #[trigger] (u[d] * os[d]) == u[d] * pb[d] by {
        assert(0 <= u[d] < bi[d]);
        if bi[d] > 1 {
            // the part is the whole block, so the region is at least a block long here
            assert(touches(index[d].start as int, index[d].end as int, block_shape[d] as int, b[d]));
            lemma_part_in_range(
                index[d].start as int,
                index[d].end as int,
                block_shape[d] as int,
                b[d],
                shape[d] as int,
            );
            assert(part_extent(index, block_shape, b)[d] == bi[d]);
            assert(rs[d] >= bi[d]);
            assert(rs[d] != 1);
            assert(out_strides[d] as int == packed_strides(rs, itemsize)[d] % m);
            // past this axis the region is as long as a block
            assert forall|f: int| d + 1 <= f < n implies #[trigger] rs[f] == bi[f] by {
                assert(block_shape[d] > 1);
                assert(rs[f] == block_shape[f]);
            }
            lemma_product_from_eq(rs, bi, d + 1);
            lemma_product_from_bounds(bi, d + 1);
            let p = product_from(bi, d + 1);
            assert(itemsize * p <= itemsize * product_from(bi, 0)) by (nonlinear_arith)
                requires
                    p <= product_from(bi, 0),
                    itemsize >= 0,
            ;
            assert(itemsize * p >= 0) by (nonlinear_arith)
                requires
                    p >= 1,
                    itemsize >= 0,
            ;
            vstd::arithmetic::div_mod::lemma_small_mod((itemsize * p) as nat, m as nat);
        } else {
            assert(u[d] == 0);
        }
    }
    lemma_dot_same_terms(u, os, pb);
}


// ---------------------------------------------------------------------------
// Running a plan over decoded blocks
// ---------------------------------------------------------------------------

/// Taking no more along each axis takes no more in all.
proof fn lemma_seq_prod_le(a: Seq<int>, b: Seq<int>)
    requires
        a.len() == b.len(),
        forall|d: int| 0 <= d < a.len() ==> 0 <= #[trigger] a[d] <= b[d],
    ensures
        0 <= seq_prod(a) <= seq_prod(b),
    decreases a.len(),
{
    if a.len() > 0 {
        lemma_seq_prod_le(a.drop_last(), b.drop_last());
        let (pa, pb, x, y) = (seq_prod(a.drop_last()), seq_prod(b.drop_last()), a.last(), b.last());
        assert(0 <= pa * x <= pb * y) by (nonlinear_arith)
            requires
                0 <= pa <= pb,
                0 <= x <= y,
        ;
    }
}

/// A planned part holds no more items than the region.
proof fn lemma_part_count_fits(
    copy: BlockCopy,
    shape: Seq<u64>,
    block_shape: Seq<BlockSize>,
    index: Seq<Range<u64>>,
    itemsize: int,
    out_strides: Seq<usize>,
)
    requires
        valid_request(shape, block_shape, index),
        copy.describes(shape, block_shape, index, itemsize, out_strides),
    ensures
        seq_prod(usize_ints(copy.extent@)) <= seq_prod(region_shape(index)),
{
    let b = copy.block_index@;
    let e = usize_ints(copy.extent@);
    let rs = region_shape(index);
    assert forall|d: int| 0 <= d < e.len() implies 0 <= #[trigger] e[d] <= rs[d] by {
        assert(touches(index[d].start as int, index[d].end as int, block_shape[d] as int, b[d]));
        lemma_part_fits(index[d].start as int, index[d].end as int, block_shape[d] as int, b[d]);
        assert(e[d] == part_extent(index, block_shape, b)[d]);
    }
    lemma_seq_prod_le(e, rs);
}

/// The packed byte strides of a block, as machine integers.
pub open spec fn packed_block_strides(block_shape: Seq<BlockSize>, itemsize: int) -> Seq<usize> {
    Seq::new(
        block_shape.len(),
        |d: int| packed_strides(block_ints(block_shape), itemsize)[d] as usize,
    )
}

/// The output after the parts of the first `k` copies were copied in, in order, each from its
/// decoded block `decoded[j]` laid out at `block_strides`, as [`copy_block_part`] copies one.
pub open spec fn parts_applied(
    out: Seq<u8>,
    copies: Seq<BlockCopy>,
    decoded: Seq<Vec<u8>>,
    block_strides: Seq<usize>,
    out_strides: Seq<usize>,
    itemsize: int,
    k: int,
) -> Seq<u8>
    decreases k,
{
    if k <= 0 {
        out
    } else {
        let prev = parts_applied(out, copies, decoded, block_strides, out_strides, itemsize, k - 1);
        let c = copies[k - 1];
        prev.take(c.out_start as int) + copied(
            prev.skip(c.out_start as int),
            decoded[k - 1]@.skip(c.active_start as int),
            c.extent@,
            block_strides,
            out_strides,
            itemsize,
        )
    }
}

/// Runs a read plan of [`plan_compact_read`] over the decoded blocks it names, into `out`.
///
/// For `Whole`, `decoded` holds the one block, which fills the start of `out`; a buffer too
/// small for it is refused with `InvalidBufferSize`, leaving `out` alone. For `Parts`, `decoded`
/// holds the decoded bytes of each copy's block, in the plan's order, and the part of each is
/// copied in turn (a `direct` copy lands where decoding in place would put it, see
/// [`lemma_direct_in_place`]).
pub fn run_compact_read(
    plan: &CompactRead,
    decoded: &[Vec<u8>],
    shape: &[u64],
    block_shape: &[BlockSize],
    index: &[Range<u64>],
    itemsize: usize,
    out: &mut [u8],
    out_strides: &[usize],
) -> (r: Result<(), Error>)
    requires
        valid_request(shape@, block_shape@, index@),
        out_strides@.len() == shape@.len(),
        itemsize * product_from(block_ints(block_shape@), 0) <= usize::MAX,
        forall|d: int|
            0 <= d < index@.len() ==> #[trigger] index@[d].end - index@[d].start <= usize::MAX,
        seq_prod(region_shape(index@)) <= usize::MAX,
        old(out)@.len() >= crate::util::strided_span(region_usize(index@), out_strides@, itemsize as int),
        region_disjoint(region_usize(index@), out_strides@, itemsize as int),
        forall|k: int|
            0 <= k < decoded@.len() ==> #[trigger] decoded@[k]@.len() == itemsize * product_from(
                block_ints(block_shape@),
                0,
            ),
        plan matches CompactRead::Parts(copies) ==> decoded@.len() == copies@.len() && copies_ok(
            copies@,
            shape@,
            block_shape@,
            index@,
            itemsize as int,
            out_strides@,
        ),
        plan is Whole ==> decoded@.len() == 1,
    ensures
        plan matches CompactRead::Parts(copies) ==> r is Ok && final(out)@ == parts_applied(
            old(out)@,
            copies@,
            decoded@,
            packed_block_strides(block_shape@, itemsize as int),
            out_strides@,
            itemsize as int,
            copies@.len() as int,
        ),
        plan matches CompactRead::Parts(copies) ==> forall|j: int, u: Seq<int>, t: int|
            0 <= j < copies@.len() && #[trigger] within(usize_ints(copies@[j].extent@), u) && 0 <= t
                < itemsize ==> #[trigger] final(out)@[copies@[j].out_start + dot(
                u,
                usize_ints(out_strides@),
            ) + t] == decoded@[j]@[copies@[j].active_start + dot(
                u,
                usize_ints(packed_block_strides(block_shape@, itemsize as int)),
            ) + t],
        plan is Whole ==> (r is Ok <==> decoded@[0]@.len() <= old(out)@.len()),
        plan is Whole && r is Ok ==> final(out)@ == decoded@[0]@ + old(out)@.skip(
            decoded@[0]@.len() as int,
        ),
        r matches Err(e) ==> e.kind == ErrorKind::InvalidBufferSize && final(out)@ == old(out)@,
{
    match plan {
        CompactRead::Whole(_) => {
            let src = &decoded[0];
            if src.len() > out.len() {
                return Err(Error::new(ErrorKind::InvalidBufferSize));
            }
            let ghost before = out@;
            let n = src.len();
            let mut i: usize = 0;
            while i < n
                invariant
                    i <= n,
                    n == src@.len(),
                    n <= out@.len(),
                    out@.len() == before.len(),
                    forall|j: int| 0 <= j < i ==> #[trigger] out@[j] == src@[j],
                    forall|j: int| i <= j < out@.len() ==> #[trigger] out@[j] == before[j],
                decreases n - i,
            {
                out[i] = src[i];
                i += 1;
            }
            assert(out@ =~= src@ + before.skip(n as int));
            Ok(())
        },
        CompactRead::Parts(copies) => {
            let bstr = block_strides(block_shape, itemsize);
            proof {
                let pk = packed_strides(block_ints(block_shape@), itemsize as int);
                assert(usize_ints(bstr@).len() == bstr@.len());
                assert forall|d: int| 0 <= d < bstr@.len() implies #[trigger] bstr@[d] == pk[d] as usize by {
                    assert(usize_ints(bstr@)[d] == bstr@[d] as int);
                }
                assert(bstr@ =~= packed_block_strides(block_shape@, itemsize as int));
            }
            let ghost out0 = out@;
            let ghost out_len = out@.len() as int;
            let n = copies.len();
            let mut k: usize = 0;
            while k < n
                invariant
                    k <= n,
                    n == copies@.len(),
                    n == decoded@.len(),
                    out@.len() == out_len,
                    out_len == out0.len(),
                    bstr@ == packed_block_strides(block_shape@, itemsize as int),
                    usize_ints(bstr@) == packed_strides(block_ints(block_shape@), itemsize as int),
                    out@ == parts_applied(
                        out0,
                        copies@,
                        decoded@,
                        bstr@,
                        out_strides@,
                        itemsize as int,
                        k as int,
                    ),
                    valid_request(shape@, block_shape@, index@),
                    out_strides@.len() == shape@.len(),
                    itemsize * product_from(block_ints(block_shape@), 0) <= usize::MAX,
                    forall|d: int|
                        0 <= d < index@.len() ==> #[trigger] index@[d].end - index@[d].start
                            <= usize::MAX,
                    seq_prod(region_shape(index@)) <= usize::MAX,
                    out_len >= crate::util::strided_span(region_usize(index@), out_strides@, itemsize as int),
                    region_disjoint(region_usize(index@), out_strides@, itemsize as int),
                    forall|j: int|
                        0 <= j < decoded@.len() ==> #[trigger] decoded@[j]@.len() == itemsize
                            * product_from(block_ints(block_shape@), 0),
                    copies_ok(copies@, shape@, block_shape@, index@, itemsize as int, out_strides@),
                decreases n - k,
            {
                let c = &copies[k];
                proof {
                    assert(copy_placed(
                        copies@[k as int],
                        k as int,
                        shape@,
                        block_shape@,
                        index@,
                        itemsize as int,
                        out_strides@,
                    ));
                    lemma_copy_fits(
                        *c,
                        shape@,
                        block_shape@,
                        index@,
                        itemsize as int,
                        out_strides@,
                        bstr@,
                        decoded@[k as int]@.len() as int,
                        out_len,
                    );
                    lemma_part_count_fits(*c, shape@, block_shape@, index@, itemsize as int, out_strides@);
                    assert(block_shape@.len() == shape@.len());
                }
                copy_block_part(c, bstr.as_slice(), decoded[k].as_slice(), out, out_strides, itemsize);
                k += 1;
            }
            proof {
                lemma_parts_placed(
                    out0,
                    copies@,
                    decoded@,
                    bstr@,
                    shape@,
                    block_shape@,
                    index@,
                    itemsize as int,
                    out_strides@,
                    n as int,
                );
            }
            Ok(())
        },
    }
}


/// The region position of item `u` of a planned part: the part's origin plus `u`.
pub open spec fn part_position(c: BlockCopy, index: Seq<Range<u64>>, block_shape: Seq<BlockSize>, u: Seq<int>) -> Seq<
    int,
> {
    Seq::new(index.len(), |d: int| part_origin(index, block_shape, c.block_index@)[d] + u[d])
}

/// Item `u` of a planned part is a position of the region covered by the part, and its output
/// offset is the part's output start plus `u`'s offset.
proof fn lemma_part_position(
    c: BlockCopy,
    shape: Seq<u64>,
    block_shape: Seq<BlockSize>,
    index: Seq<Range<u64>>,
    itemsize: int,
    out_strides: Seq<usize>,
    u: Seq<int>,
)
    requires
        valid_request(shape, block_shape, index),
        out_strides.len() == shape.len(),
        forall|d: int| 0 <= d < index.len() ==> #[trigger] index[d].end - index[d].start <= usize::MAX,
        c.describes(shape, block_shape, index, itemsize, out_strides),
        within(usize_ints(c.extent@), u),
    ensures
        within(usize_ints(region_usize(index)), part_position(c, index, block_shape, u)),
        part_covers(index, block_shape, c.block_index@, part_position(c, index, block_shape, u)),
        c.out_start + dot(u, usize_ints(out_strides)) == dot(
            part_position(c, index, block_shape, u),
            usize_ints(out_strides),
        ),
{
    let b = c.block_index@;
    let q = part_position(c, index, block_shape, u);
    let o = part_origin(index, block_shape, b);
    let rs = usize_ints(region_usize(index));
    assert forall|d: int| 0 <= d < index.len() implies 0 <= #[trigger] q[d] < rs[d] && o[d] <= q[d]
        < o[d] + part_extent(index, block_shape, b)[d] by {
        assert(touches(index[d].start as int, index[d].end as int, block_shape[d] as int, b[d]));
        lemma_part_in_range(
            index[d].start as int,
            index[d].end as int,
            block_shape[d] as int,
            b[d],
            shape[d] as int,
        );
        assert(usize_ints(c.extent@)[d] == part_extent(index, block_shape, b)[d]);
        assert(0 <= u[d] < usize_ints(c.extent@)[d]);
        assert(rs[d] == index[d].end - index[d].start);
    }
    lemma_dot_add(o, u, usize_ints(out_strides));
    assert(q =~= Seq::new(o.len(), |d: int| o[d] + u[d]));
}

/// Items of two different planned parts lie on different bytes of the output.
proof fn lemma_parts_apart(
    copies: Seq<BlockCopy>,
    shape: Seq<u64>,
    block_shape: Seq<BlockSize>,
    index: Seq<Range<u64>>,
    itemsize: int,
    out_strides: Seq<usize>,
    j: int,
    k: int,
    u: Seq<int>,
    v: Seq<int>,
)
    requires
        valid_request(shape, block_shape, index),
        out_strides.len() == shape.len(),
        forall|d: int| 0 <= d < index.len() ==> #[trigger] index[d].end - index[d].start <= usize::MAX,
        copies_ok(copies, shape, block_shape, index, itemsize, out_strides),
        region_disjoint(region_usize(index), out_strides, itemsize),
        0 <= j < copies.len(),
        0 <= k < copies.len(),
        j != k,
        within(usize_ints(copies[j].extent@), u),
        within(usize_ints(copies[k].extent@), v),
    ensures
        copies[j].out_start + dot(u, usize_ints(out_strides)) + itemsize <= copies[k].out_start + dot(
            v,
            usize_ints(out_strides),
        ) || copies[k].out_start + dot(v, usize_ints(out_strides)) + itemsize <= copies[j].out_start
            + dot(u, usize_ints(out_strides)),
{
    assert(copy_placed(copies[j], j, shape, block_shape, index, itemsize, out_strides));
    assert(copy_placed(copies[k], k, shape, block_shape, index, itemsize, out_strides));
    lemma_part_position(copies[j], shape, block_shape, index, itemsize, out_strides, u);
    lemma_part_position(copies[k], shape, block_shape, index, itemsize, out_strides, v);
    let qj = part_position(copies[j], index, block_shape, u);
    let qk = part_position(copies[k], index, block_shape, v);
    let rs = usize_ints(region_usize(index));
    if qj == qk {
        assert forall|d: int| 0 <= d < qj.len() implies 0 <= #[trigger] qj[d] < index[d].end
            - index[d].start by {
            assert(rs[d] == index[d].end - index[d].start);
        }
        lemma_parts_tile(shape, block_shape, index, qj, copies[j].block_index@);
        lemma_parts_tile(shape, block_shape, index, qj, copies[k].block_index@);
        lemma_copies_cover(copies, shape, block_shape, index, itemsize, out_strides, qj);
        assert(copies[j].block_index@ == copies[k].block_index@);
    }
    assert(within(rs, qj));
    assert(within(rs, qk));
}

/// After the parts of the first `k` copies of a plan were copied in, the bytes of every item of
/// each of those parts are that item's bytes in its decoded block: a read plan puts every part
/// where it was planned, and no later part overwrites it.
#[verifier::spinoff_prover]
#[verifier::rlimit(60)]
pub proof fn lemma_parts_placed(
    out0: Seq<u8>,
    copies: Seq<BlockCopy>,
    decoded: Seq<Vec<u8>>,
    block_strides: Seq<usize>,
    shape: Seq<u64>,
    block_shape: Seq<BlockSize>,
    index: Seq<Range<u64>>,
    itemsize: int,
    out_strides: Seq<usize>,
    k: int,
)
    requires
        valid_request(shape, block_shape, index),
        out_strides.len() == shape.len(),
        itemsize >= 0,
        itemsize * product_from(block_ints(block_shape), 0) <= usize::MAX,
        forall|d: int| 0 <= d < index.len() ==> #[trigger] index[d].end - index[d].start <= usize::MAX,
        out0.len() >= crate::util::strided_span(region_usize(index), out_strides, itemsize),
        region_disjoint(region_usize(index), out_strides, itemsize),
        usize_ints(block_strides) == packed_strides(block_ints(block_shape), itemsize),
        copies_ok(copies, shape, block_shape, index, itemsize, out_strides),
        decoded.len() == copies.len(),
        forall|j: int|
            0 <= j < decoded.len() ==> #[trigger] decoded[j]@.len() == itemsize * product_from(
                block_ints(block_shape),
                0,
            ),
        0 <= k <= copies.len(),
    ensures
        parts_applied(out0, copies, decoded, block_strides, out_strides, itemsize, k).len() == out0.len(),
        forall|j: int, u: Seq<int>, t: int|
            0 <= j < k && #[trigger] within(usize_ints(copies[j].extent@), u) && 0 <= t < itemsize
                ==> #[trigger] parts_applied(out0, copies, decoded, block_strides, out_strides, itemsize, k)[copies[j].out_start
                + dot(u, usize_ints(out_strides)) + t] == decoded[j]@[copies[j].active_start + dot(
                u,
                usize_ints(block_strides),
            ) + t],
    decreases k,
{
    if k > 0 {
        lemma_parts_placed(out0, copies, decoded, block_strides, shape, block_shape, index, itemsize, out_strides, k - 1);
        let a = parts_applied(out0, copies, decoded, block_strides, out_strides, itemsize, k - 1);
        let b = parts_applied(out0, copies, decoded, block_strides, out_strides, itemsize, k);
        let c = copies[k - 1];
        let os = usize_ints(out_strides);
        let bs = usize_ints(block_strides);
        let dlen = itemsize * product_from(block_ints(block_shape), 0);
        let src = decoded[k - 1]@.skip(c.active_start as int);
        let dst = a.skip(c.out_start as int);
        assert(copy_placed(c, k - 1, shape, block_shape, index, itemsize, out_strides));
        lemma_copy_fits(c, shape, block_shape, index, itemsize, out_strides, block_strides, dlen, out0.len() as int);
        assert(b == a.take(c.out_start as int) + copied(dst, src, c.extent@, block_strides, out_strides, itemsize));
        assert forall|j: int, u: Seq<int>, t: int|
            0 <= j < k && #[trigger] within(usize_ints(copies[j].extent@), u) && 0 <= t < itemsize
                implies #[trigger] b[copies[j].out_start + dot(u, os) + t] == decoded[j]@[copies[j].active_start
                + dot(u, bs) + t] by {
            let cj = copies[j];
            assert(copy_placed(cj, j, shape, block_shape, index, itemsize, out_strides));
            lemma_copy_fits(cj, shape, block_shape, index, itemsize, out_strides, block_strides, dlen, out0.len() as int);
            assert(within(usize_ints(cj.extent@), u));
            crate::util::nd_copy::lemma_dot_nonneg(u, os);
            let p = cj.out_start + dot(u, os) + t;
            assert(dot(u, os) + itemsize <= out0.len() - cj.out_start);
            if j == k - 1 {
                let bp = dot(u, os) + t;
                assert(in_element(out_strides, itemsize, u, bp));
                let w = choose|w: Seq<int>|
                    within(usize_ints(c.extent@), w) && #[trigger] in_element(out_strides, itemsize, w, bp);
                if w != u {
                    assert(within(usize_ints(c.extent@), w));
                }
                assert(w == u);
                crate::util::nd_copy::lemma_dot_nonneg(u, bs);
                assert(dot(u, bs) + itemsize <= dlen - c.active_start);
                assert(b[p] == copied(dst, src, c.extent@, block_strides, out_strides, itemsize)[bp]);
                assert(src[dot(u, bs) + t] == decoded[j]@[cj.active_start + dot(u, bs) + t]);
            } else {
                assert(a[p] == decoded[j]@[cj.active_start + dot(u, bs) + t]);
                if p >= c.out_start {
                    let bp = p - c.out_start;
                    if exists|w: Seq<int>|
                        within(usize_ints(c.extent@), w) && #[trigger] in_element(out_strides, itemsize, w, bp) {
                        let w = choose|w: Seq<int>|
                            within(usize_ints(c.extent@), w) && #[trigger] in_element(out_strides, itemsize, w, bp);
                        lemma_parts_apart(copies, shape, block_shape, index, itemsize, out_strides, j, k - 1, u, w);
                    }
                    assert(b[p] == copied(dst, src, c.extent@, block_strides, out_strides, itemsize)[bp]);
                    assert(b[p] == a[p]);
                } else {
                    assert(b[p] == a[p]);
                }
            }
        }
    }
}


/// A read, end to end: once every planned part was copied in from its decoded block, the bytes of
/// each position `p` of the requested region, at its offset under the output strides, are the
/// bytes of that item in the decoded block that holds it, at the item's position within the
/// block; and there is such a block among the planned ones.
#[verifier::spinoff_prover]
#[verifier::rlimit(40)]
pub proof fn lemma_read_places_region(
    out0: Seq<u8>,
    copies: Seq<BlockCopy>,
    decoded: Seq<Vec<u8>>,
    block_strides: Seq<usize>,
    shape: Seq<u64>,
    block_shape: Seq<BlockSize>,
    index: Seq<Range<u64>>,
    itemsize: int,
    out_strides: Seq<usize>,
    p: Seq<int>,
    t: int,
)
    requires
        valid_request(shape, block_shape, index),
        out_strides.len() == shape.len(),
        itemsize >= 0,
        itemsize * product_from(block_ints(block_shape), 0) <= usize::MAX,
        forall|d: int| 0 <= d < index.len() ==> #[trigger] index[d].end - index[d].start <= usize::MAX,
        out0.len() >= crate::util::strided_span(region_usize(index), out_strides, itemsize),
        region_disjoint(region_usize(index), out_strides, itemsize),
        usize_ints(block_strides) == packed_strides(block_ints(block_shape), itemsize),
        copies_ok(copies, shape, block_shape, index, itemsize, out_strides),
        decoded.len() == copies.len(),
        forall|j: int|
            0 <= j < decoded.len() ==> #[trigger] decoded[j]@.len() == itemsize * product_from(
                block_ints(block_shape),
                0,
            ),
        p.len() == index.len(),
        forall|d: int| 0 <= d < p.len() ==> 0 <= #[trigger] p[d] < index[d].end - index[d].start,
        0 <= t < itemsize,
    ensures
        exists|k: int|
            0 <= k < copies.len() && #[trigger] copies[k].block_index@ == holding_block(
                index,
                block_shape,
                p,
            ),
        forall|k: int|
            0 <= k < copies.len() && #[trigger] copies[k].block_index@ == holding_block(
                index,
                block_shape,
                p,
            ) ==> parts_applied(
                out0,
                copies,
                decoded,
                block_strides,
                out_strides,
                itemsize,
                copies.len() as int,
            )[dot(p, usize_ints(out_strides)) + t] == decoded[k]@[dot(
                position_in_block(index, block_shape, p),
                usize_ints(block_strides),
            ) + t],
{
    lemma_copies_cover(copies, shape, block_shape, index, itemsize, out_strides, p);
    lemma_parts_placed(
        out0,
        copies,
        decoded,
        block_strides,
        shape,
        block_shape,
        index,
        itemsize,
        out_strides,
        copies.len() as int,
    );
    let h = holding_block(index, block_shape, p);
    lemma_parts_tile(shape, block_shape, index, p, h);
    assert forall|k: int|
        0 <= k < copies.len() && #[trigger] copies[k].block_index@ == h implies parts_applied(
            out0,
            copies,
            decoded,
            block_strides,
            out_strides,
            itemsize,
            copies.len() as int,
        )[dot(p, usize_ints(out_strides)) + t] == decoded[k]@[dot(
            position_in_block(index, block_shape, p),
            usize_ints(block_strides),
        ) + t] by {
        let c = copies[k];
        assert(copy_placed(c, k, shape, block_shape, index, itemsize, out_strides));
        let o = part_origin(index, block_shape, h);
        let inner = part_inner(index, block_shape, h);
        let u = Seq::new(p.len(), |d: int| p[d] - o[d]);
        assert(within(usize_ints(c.extent@), u)) by {
            assert forall|d: int| 0 <= d < u.len() implies 0 <= #[trigger] u[d] < usize_ints(
                c.extent@,
            )[d] by {
                assert(usize_ints(c.extent@)[d] == part_extent(index, block_shape, h)[d]);
            }
        }
        lemma_part_position(c, shape, block_shape, index, itemsize, out_strides, u);
        assert(part_position(c, index, block_shape, u) =~= p);
        lemma_dot_add(inner, u, usize_ints(block_strides));
        assert(Seq::new(inner.len(), |d: int| inner[d] + u[d]) =~= position_in_block(
            index,
            block_shape,
            p,
        ));
    }
}

} // verus!

use vstd::prelude::*;
use crate::error::{Error, ErrorKind};
use crate::util::bitmap::{DimBitmap, NDIM_MAX};
use crate::util::arrayvec::ArrayVec;
use crate::util::{
    clamp_read_dims, scale_read_shape, scaled_read_shape, u64_ints, lemma_next_power_of_two, lemma_prefix_product_mono, lemma_prefix_product_ones,
    lemma_prefix_product_pos, next_power_of_two, next_power_of_two_from, prefix_product, product_from,
    DimIdx, extent_ints,
};

verus! {

/// Size of a block along one dimension, in items.
pub type BlockSize = u32;

/// The size of one array element, in bytes.
pub type Itemsize = u16;

/// Target byte range `(min, max)` for a single read region: a tuning hint for how much data one
/// read pass pulls through memory. `min >= 1` and `max >= min`.
#[derive(Clone, Copy, Debug, PartialEq, Eq, Structural)]
pub struct ReadSize {
    pub min: u64,
    pub max: u64,
}

impl ReadSize {
    /// The range `[max(min, 1), max(max, max(min, 1))]`.
    pub fn new(min: u64, max: u64) -> (r: Self)
        ensures
            r.min == if min >= 1 { min } else { 1 },
            r.max == if max >= r.min { max } else { r.min },
    {
        let min = if min >= 1 { min } else { 1 };
        let max = if max >= min { max } else { min };
        ReadSize { min, max }
    }

    /// The range in element counts for elements of `itemsize` bytes, each bound floored at 1.
    pub fn nitems(self, itemsize: Itemsize) -> (r: (u64, u64))
        requires
            itemsize > 0,
        ensures
            r.0 == if self.min / itemsize as u64 >= 1 { self.min / itemsize as u64 } else { 1 },
            r.1 == if self.max / itemsize as u64 >= 1 { self.max / itemsize as u64 } else { 1 },
    {
        let itemsize = itemsize as u64;
        let lo = self.min / itemsize;
        let hi = self.max / itemsize;
        (if lo >= 1 { lo } else { 1 }, if hi >= 1 { hi } else { 1 })
    }
}

/// Per-array storage flags.
#[derive(Clone, Copy, Debug, PartialEq, Eq, Structural)]
pub struct ArraySpecFlags(u8);

/// The array is stored in a compact layout of independently compressed nd-blocks.
const IS_COMPACT: u8 = 0b0000_0001;

/// A read of the array is a simple strided copy.
const PLAIN_READ: u8 = 0b0000_0010;

proof fn lemma_flag_bits(b: u8)
    by (bit_vector)
    ensures
        ((b | 1u8) & 1u8 != 0) && (((b | 1u8) & 2u8 != 0) == (b & 2u8 != 0)),
        ((b & !1u8) & 1u8 == 0) && (((b & !1u8) & 2u8 != 0) == (b & 2u8 != 0)),
        ((b | 2u8) & 2u8 != 0) && (((b | 2u8) & 1u8 != 0) == (b & 1u8 != 0)),
        ((b & !2u8) & 2u8 == 0) && (((b & !2u8) & 1u8 != 0) == (b & 1u8 != 0)),
        (0u8 & 1u8 == 0) && (0u8 & 2u8 == 0),
{
}

impl ArraySpecFlags {
    /// The compact flag.
    pub closed spec fn compact(self) -> bool {
        self.0 & IS_COMPACT != 0
    }

    /// The plain-read flag.
    pub closed spec fn plain(self) -> bool {
        self.0 & PLAIN_READ != 0
    }

    /// No flag set.
    pub fn new() -> (r: Self)
        ensures
            !r.compact(),
            !r.plain(),
    {
        proof {
            lemma_flag_bits(0);
        }
        ArraySpecFlags(0)
    }

    pub fn is_compact(&self) -> (r: bool)
        ensures
            r == self.compact(),
    {
        self.0 & IS_COMPACT != 0
    }

    pub fn set_compact(self) -> (r: Self)
        ensures
            r.compact(),
            r.plain() == self.plain(),
    {
        proof {
            lemma_flag_bits(self.0);
        }
        ArraySpecFlags(self.0 | IS_COMPACT)
    }

    pub fn clear_compact(self) -> (r: Self)
        ensures
            !r.compact(),
            r.plain() == self.plain(),
    {
        proof {
            lemma_flag_bits(self.0);
        }
        ArraySpecFlags(self.0 & !IS_COMPACT)
    }

    pub fn plain_read(&self) -> (r: bool)
        ensures
            r == self.plain(),
    {
        self.0 & PLAIN_READ != 0
    }

    pub fn set_plain_read(self) -> (r: Self)
        ensures
            r.plain(),
            r.compact() == self.compact(),
    {
        proof {
            lemma_flag_bits(self.0);
        }
        ArraySpecFlags(self.0 | PLAIN_READ)
    }

    pub fn clear_plain_read(self) -> (r: Self)
        ensures
            !r.plain(),
            r.compact() == self.compact(),
    {
        proof {
            lemma_flag_bits(self.0);
        }
        ArraySpecFlags(self.0 & !PLAIN_READ)
    }
}

// ---------------------------------------------------------------------------
// Block-shape heuristics
// ---------------------------------------------------------------------------

/// How many items of padding a dimension of `dim_len` items needs to become a multiple of `bl`.
pub open spec fn padding(dim_len: int, bl: int) -> int {
    (bl - dim_len % bl) % bl
}

/// The largest `m * multiple` with `1 <= m <= m_max` whose padding of `dim_len` is at most an
/// eighth of `dim_len`, or `multiple` when there is none.
pub open spec fn largest_fitting_block(dim_len: int, multiple: int, m_max: int) -> int
    decreases m_max,
{
    if m_max <= 0 {
        multiple
    } else if padding(dim_len, m_max * multiple) <= dim_len / 8 {
        m_max * multiple
    } else {
        largest_fitting_block(dim_len, multiple, m_max - 1)
    }
}

/// The largest block length the budget allows: `max_volume / inner_block_volume`, capped at
/// `dim_len` and `2^30`, rounded down to a multiple of `base`, and at least 1.
pub open spec fn max_block_len(base: int, dim_len: int, max_volume: int, inner_block_volume: int) -> int {
    let by_budget = max_volume / inner_block_volume;
    let capped1 = if by_budget <= dim_len { by_budget } else { dim_len };
    let capped = if capped1 <= 0x4000_0000 { capped1 } else { 0x4000_0000 };
    let floored = capped / base * base;
    if floored >= 1 { floored } else { 1 }
}

/// The granularity the block length is searched in: `base` (clamped to the maximum) times the
/// power of two near `min(dim_len, max) / (16 * base)`, capped at `2^20`.
pub open spec fn block_multiple(base: int, dim_len: int, mbl: int) -> int {
    let b = if base <= mbl { base } else { mbl };
    let span = if dim_len <= mbl { dim_len } else { mbl };
    let p = next_power_of_two_from(span / (16 * b) + 1, 1);
    b * (if p <= 0x10_0000 { p } else { 0x10_0000 })
}

/// The block length chosen for one dimension of `dim_len` items, given the block length `base`
/// it starts from, the budget `max_volume` (in items) and the volume `inner_block_volume` the
/// block already has.
pub open spec fn block_len_heuristic_spec(
    base: int,
    dim_len: int,
    max_volume: int,
    inner_block_volume: int,
) -> int {
    if dim_len <= 1 {
        1
    } else {
        let mbl = max_block_len(base, dim_len, max_volume, inner_block_volume);
        if mbl == dim_len {
            dim_len
        } else {
            let multiple = block_multiple(base, dim_len, mbl);
            largest_fitting_block(dim_len, multiple, mbl / multiple)
        }
    }
}

/// The search for a block length finds one that pads at most an eighth whenever one exists among
/// the multiples it searches, and none shorter than it.
proof fn lemma_largest_fitting_pads(dim_len: int, multiple: int, m_max: int, m: int)
    requires
        multiple >= 1,
        1 <= m <= m_max,
        (m * multiple - dim_len % (m * multiple)) % (m * multiple) <= dim_len / 8,
    ensures
        ({
            let r = largest_fitting_block(dim_len, multiple, m_max);
            &&& (r - dim_len % r) % r <= dim_len / 8
            &&& m * multiple <= r
        }),
    decreases m_max,
{
    if padding(dim_len, m_max * multiple) <= dim_len / 8 {
        assert(m * multiple <= m_max * multiple) by (nonlinear_arith)
            requires
                m <= m_max,
                multiple >= 1,
        ;
    } else {
        assert(m != m_max);
        lemma_largest_fitting_pads(dim_len, multiple, m_max - 1, m);
    }
}

/// The block length chosen for a dimension pads it by at most an eighth of its length whenever
/// some multiple of the search granularity within the budget does, and it is no shorter than
/// any such multiple: it is the longest block length within the budget that wastes at most an
/// eighth of the dimension.
pub proof fn lemma_block_len_pads_at_most_an_eighth(
    base: int,
    dim_len: int,
    max_volume: int,
    inner_block_volume: int,
    m: int,
)
    requires
        base >= 1,
        inner_block_volume >= 1,
        max_volume >= 0,
        dim_len > 1,
        m >= 1,
        m * block_multiple(base, dim_len, max_block_len(base, dim_len, max_volume, inner_block_volume))
            <= max_block_len(base, dim_len, max_volume, inner_block_volume),
        ({
            let g = m * block_multiple(
                base,
                dim_len,
                max_block_len(base, dim_len, max_volume, inner_block_volume),
            );
            (g - dim_len % g) % g <= dim_len / 8
        }),
    ensures
        ({
            let r = block_len_heuristic_spec(base, dim_len, max_volume, inner_block_volume);
            &&& (r - dim_len % r) % r <= dim_len / 8
            &&& m * block_multiple(
                base,
                dim_len,
                max_block_len(base, dim_len, max_volume, inner_block_volume),
            ) <= r
        }),
{
    let mbl = max_block_len(base, dim_len, max_volume, inner_block_volume);
    let b = if base <= mbl { base } else { mbl };
    let span = if dim_len <= mbl { dim_len } else { mbl };
    assert(mbl >= 1);
    vstd::arithmetic::div_mod::lemma_div_pos_is_pos(span, 16 * b);
    lemma_next_power_of_two(span / (16 * b) + 1, 1);
    let pw = next_power_of_two_from(span / (16 * b) + 1, 1);
    let multiple = block_multiple(base, dim_len, mbl);
    assert(multiple >= 1) by (nonlinear_arith)
        requires
            multiple == b * (if pw <= 0x10_0000 { pw } else { 0x10_0000 }),
            b >= 1,
            pw >= 1,
    ;
    if mbl == dim_len {
        vstd::arithmetic::div_mod::lemma_mod_self_0(dim_len);
    } else {
        vstd::arithmetic::div_mod::lemma_div_is_ordered(m * multiple, mbl, multiple);
        vstd::arithmetic::div_mod::lemma_div_multiples_vanish(m, multiple);
        assert((m * multiple) / multiple == m) by {
            assert(m * multiple == multiple * m) by (nonlinear_arith);
        }
        lemma_largest_fitting_pads(dim_len, multiple, mbl / multiple, m);
    }
}

proof fn lemma_largest_fitting_block(dim_len: int, multiple: int, m_max: int)
    requires
        multiple >= 1,
        m_max >= 0,
    ensures
        multiple <= largest_fitting_block(dim_len, multiple, m_max),
        largest_fitting_block(dim_len, multiple, m_max) <= if m_max >= 1 {
            m_max * multiple
        } else {
            multiple
        },
    decreases m_max,
{
    if m_max > 0 {
        lemma_largest_fitting_block(dim_len, multiple, m_max - 1);
        assert(multiple <= m_max * multiple) by (nonlinear_arith)
            requires
                m_max >= 1,
                multiple >= 1,
        ;
        if m_max > 1 {
            assert((m_max - 1) * multiple <= m_max * multiple) by (nonlinear_arith)
                requires
                    m_max >= 1,
                    multiple >= 1,
            ;
        }
    }
}

/// The search granularity never exceeds the largest block length.
proof fn lemma_block_multiple(base: int, dim_len: int, mbl: int)
    requires
        base >= 1,
        dim_len >= 0,
        mbl >= 1,
        mbl <= 0x4000_0000,
    ensures
        1 <= block_multiple(base, dim_len, mbl) <= mbl,
{
    let b = if base <= mbl { base } else { mbl };
    let span = if dim_len <= mbl { dim_len } else { mbl };
    let q = span / (16 * b);
    assert(0 <= span <= mbl || span < 0);
    let x = q + 1;
    if span < 0 {
        assert(q < 0 || q >= 0);
    }
    if 0 <= span {
        assert(q >= 0) by (nonlinear_arith)
            requires
                span >= 0,
                b >= 1,
                q == span / (16 * b),
        ;
        lemma_next_power_of_two(x, 1);
        let p = next_power_of_two_from(x, 1);
        let pc = if p <= 0x10_0000 { p } else { 0x10_0000 };
        assert(1 <= pc <= p);
        if span < 16 * b {
            assert(q == 0) by (nonlinear_arith)
                requires
                    0 <= span < 16 * b,
                    q == span / (16 * b),
            ;
            assert(pc == 1);
            assert(b * pc <= b) by (nonlinear_arith)
                requires
                    pc == 1,
            ;
        } else {
            assert(b * pc <= mbl) by (nonlinear_arith)
                requires
                    pc < 2 * (q + 1),
                    q == span / (16 * b),
                    span >= 16 * b,
                    span <= mbl,
                    b >= 1,
            ;
        }
        assert(b * pc >= 1) by (nonlinear_arith)
            requires
                b >= 1,
                pc >= 1,
        ;
    } else {
        assert(false);
    }
}

/// The search granularity for a block length, computed as [`block_multiple`] states it.
fn block_multiple_exec(base: u64, dim_len: u64, mbl: u64) -> (r: u64)
    requires
        base >= 1,
        1 <= mbl <= 0x4000_0000,
    ensures
        r == block_multiple(base as int, dim_len as int, mbl as int),
        1 <= r <= mbl,
{
    proof {
        lemma_block_multiple(base as int, dim_len as int, mbl as int);
    }
    let b = if base <= mbl { base } else { mbl };
    let span = if dim_len <= mbl { dim_len } else { mbl };
    assert(span as int / (16 * b as int) <= span as int) by (nonlinear_arith)
        requires
            b >= 1,
            span >= 0,
    ;
    let p = next_power_of_two(span / (16 * b) + 1);
    let pc = if p <= 0x10_0000 { p } else { 0x10_0000 };
    assert(b * pc <= 0x4000_0000 * 0x10_0000) by (nonlinear_arith)
        requires
            b <= 0x4000_0000,
            pc <= 0x10_0000,
    ;
    b * pc
}

/// The largest `m * multiple` with `1 <= m <= m_max` that pads `dim_len` by at most an eighth,
/// or `multiple` when there is none.
fn largest_fitting_exec(dim_len: u64, multiple: u64, m_max: u64) -> (r: u64)
    requires
        multiple >= 1,
        m_max * multiple <= 0x4000_0000,
    ensures
        r == largest_fitting_block(dim_len as int, multiple as int, m_max as int),
{
    let mut m = m_max;
    let mut found = multiple;
    let mut done = false;
    while m > 0 && !done
        invariant
            m <= m_max,
            m_max * multiple <= 0x4000_0000,
            multiple >= 1,
            !done ==> found == multiple,
            largest_fitting_block(dim_len as int, multiple as int, m_max as int) == if done {
                found as int
            } else {
                largest_fitting_block(dim_len as int, multiple as int, m as int)
            },
        decreases m + if done { 0int } else { 1int },
    {
        assert(1 * multiple <= m * multiple <= m_max * multiple) by (nonlinear_arith)
            requires
                1 <= m <= m_max,
                multiple >= 1,
        ;
        let bl = m * multiple;
        if (bl - dim_len % bl) % bl <= dim_len / 8 {
            found = bl;
            done = true;
        } else {
            m = m - 1;
        }
    }
    found
}

/// The block lengths chosen by scaling `block_shape` for dimensions `k..`, from the last dimension
/// outward. A dimension with `scale_dim` false keeps its length; a scaled one takes
/// [`block_len_heuristic_spec`] of its length, its extent, the budget and the volume the block has
/// at that point: the chosen lengths of the later dimensions times the given lengths of this one
/// and the earlier ones.
pub open spec fn scaled_suffix(
    block_shape: Seq<int>,
    scale_dim: Seq<bool>,
    block_size_max: int,
    shape: Seq<int>,
    k: int,
) -> Seq<int>
    decreases block_shape.len() - k,
{
    if k < 0 || k >= block_shape.len() {
        Seq::empty()
    } else {
        let rest = scaled_suffix(block_shape, scale_dim, block_size_max, shape, k + 1);
        let len = if scale_dim[k] {
            block_len_heuristic_spec(
                block_shape[k],
                shape[k],
                block_size_max,
                prefix_product(block_shape, k + 1) * product_from(rest, 0),
            )
        } else {
            block_shape[k]
        };
        seq![len] + rest
    }
}

/// With every entry at least 1, every prefix product is at most the whole product, so all of them
/// fit where the whole one does.
proof fn lemma_prefix_products_fit(s: Seq<int>)
    requires
        forall|d: int| 0 <= d < s.len() ==> s[d] >= 1,
        prefix_product(s, s.len() as int) <= u64::MAX,
    ensures
        forall|k: int| 0 <= k <= s.len() ==> #[trigger] prefix_product(s, k) <= u64::MAX,
{
    assert forall|k: int| 0 <= k <= s.len() implies #[trigger] prefix_product(s, k) <= u64::MAX by {
        lemma_prefix_product_mono(s, k, s.len() as int);
    }
}

/// Some dimension that is scaled is longer than 1.
pub open spec fn scales_some_axis(scale_dim: Seq<bool>, shape: Seq<u64>) -> bool {
    exists|d: int| 0 <= d < shape.len() && #[trigger] scale_dim[d] && shape[d] > 1
}

/// With no scaled dimension longer than 1, scaling from `k` on sets every scaled dimension to 1
/// and keeps the others.
proof fn lemma_unit_scaled_suffix(
    block_shape: Seq<int>,
    scale_dim: Seq<bool>,
    block_size_max: int,
    shi: Seq<int>,
    shape: Seq<u64>,
    k: int,
)
    requires
        0 <= k <= block_shape.len(),
        block_shape.len() == shape.len(),
        scale_dim.len() == shape.len(),
        shi == extent_ints(shape),
        !scales_some_axis(scale_dim, shape),
    ensures
        scaled_suffix(block_shape, scale_dim, block_size_max, shi, k) =~= Seq::new(
            (block_shape.len() - k) as nat,
            |i: int| if scale_dim[k + i] { 1 } else { block_shape[k + i] },
        ),
    decreases block_shape.len() - k,
{
    if k < block_shape.len() {
        lemma_unit_scaled_suffix(block_shape, scale_dim, block_size_max, shi, shape, k + 1);
        if scale_dim[k] {
            assert(!(scale_dim[k] && shape[k] > 1));
            assert(shi[k] <= 1);
        }
    }
}

/// The block shape `block_shape` scaled towards a volume of `block_size_max` items.
pub open spec fn scaled_block_shape(
    block_shape: Seq<int>,
    scale_dim: Seq<bool>,
    block_size_max: int,
    shape: Seq<int>,
) -> Seq<int> {
    scaled_suffix(block_shape, scale_dim, block_size_max, shape, 0)
}

/// The values of a sequence of block lengths.
pub open spec fn block_ints(s: Seq<BlockSize>) -> Seq<int> {
    Seq::new(s.len(), |d: int| s[d] as int)
}

proof fn lemma_product_cons(x: int, rest: Seq<int>, i: int)
    requires
        0 <= i,
    ensures
        product_from(seq![x] + rest, i + 1) == product_from(rest, i),
    decreases rest.len() - i,
{
    if i < rest.len() {
        lemma_product_cons(x, rest, i + 1);
        assert((seq![x] + rest)[i + 1] == rest[i]);
    }
}

proof fn lemma_product_pos(s: Seq<int>, i: int)
    requires
        0 <= i,
        forall|d: int| 0 <= d < s.len() ==> s[d] >= 1,
    ensures
        product_from(s, i) >= 1,
    decreases s.len() - i,
{
    if i < s.len() {
        lemma_product_pos(s, i + 1);
        assert(s[i] * product_from(s, i + 1) >= 1) by (nonlinear_arith)
            requires
                s[i] >= 1,
                product_from(s, i + 1) >= 1,
        ;
    }
}

proof fn lemma_scaled_suffix(
    block_shape: Seq<int>,
    scale_dim: Seq<bool>,
    block_size_max: int,
    shape: Seq<int>,
    k: int,
)
    requires
        0 <= k <= block_shape.len(),
        forall|d: int| 0 <= d < block_shape.len() ==> block_shape[d] >= 1,
    ensures
        scaled_suffix(block_shape, scale_dim, block_size_max, shape, k).len() == block_shape.len()
            - k,
        forall|d: int|
            0 <= d < block_shape.len() - k ==> #[trigger] scaled_suffix(
                block_shape,
                scale_dim,
                block_size_max,
                shape,
                k,
            )[d] >= 1,
    decreases block_shape.len() - k,
{
    if k < block_shape.len() {
        lemma_scaled_suffix(block_shape, scale_dim, block_size_max, shape, k + 1);
        let rest = scaled_suffix(block_shape, scale_dim, block_size_max, shape, k + 1);
        if scale_dim[k] {
            let inner = prefix_product(block_shape, k + 1) * product_from(rest, 0);
            lemma_prefix_product_pos(block_shape, k + 1);
            lemma_product_pos(rest, 0);
            assert(inner >= 1) by (nonlinear_arith)
                requires
                    prefix_product(block_shape, k + 1) >= 1,
                    product_from(rest, 0) >= 1,
                    inner == prefix_product(block_shape, k + 1) * product_from(rest, 0),
            ;
            lemma_block_len_heuristic_pos(block_shape[k], shape[k], block_size_max, inner);
        }
    }
}

proof fn lemma_scaled_suffix_len(
    block_shape: Seq<int>,
    scale_dim: Seq<bool>,
    block_size_max: int,
    shape: Seq<int>,
    k: int,
)
    requires
        0 <= k <= block_shape.len(),
    ensures
        scaled_suffix(block_shape, scale_dim, block_size_max, shape, k).len() == block_shape.len()
            - k,
    decreases block_shape.len() - k,
{
    if k < block_shape.len() {
        lemma_scaled_suffix_len(block_shape, scale_dim, block_size_max, shape, k + 1);
    }
}

/// A dimension that is not scaled keeps its given length.
proof fn lemma_scaled_suffix_keeps(
    block_shape: Seq<int>,
    scale_dim: Seq<bool>,
    block_size_max: int,
    shape: Seq<int>,
    k: int,
    d: int,
)
    requires
        0 <= k <= d < block_shape.len(),
        !scale_dim[d],
    ensures
        scaled_suffix(block_shape, scale_dim, block_size_max, shape, k)[d - k] == block_shape[d],
    decreases d - k,
{
    lemma_scaled_suffix_len(block_shape, scale_dim, block_size_max, shape, k + 1);
    if k < d {
        lemma_scaled_suffix_keeps(block_shape, scale_dim, block_size_max, shape, k + 1, d);
    }
}

proof fn lemma_block_len_heuristic_pos(base: int, dim_len: int, max_volume: int, inner: int)
    requires
        base >= 1,
        inner >= 1,
    ensures
        block_len_heuristic_spec(base, dim_len, max_volume, inner) >= 1,
{
    if dim_len > 1 {
        let mbl = max_block_len(base, dim_len, max_volume, inner);
        if mbl != dim_len {
            let by_budget = max_volume / inner;
            let capped1 = if by_budget <= dim_len { by_budget } else { dim_len };
            let capped = if capped1 <= 0x4000_0000 { capped1 } else { 0x4000_0000 };
            assert(capped / base * base <= capped || capped < 0) by (nonlinear_arith)
                requires
                    base >= 1,
            ;
            if capped < 0 {
                assert(capped / base * base < 1) by (nonlinear_arith)
                    requires
                        base >= 1,
                        capped < 0,
                ;
            }
            assert(1 <= mbl <= 0x4000_0000);
            lemma_block_multiple(base, dim_len, mbl);
            let multiple = block_multiple(base, dim_len, mbl);
            assert(mbl / multiple >= 0) by (nonlinear_arith)
                requires
                    multiple >= 1,
                    mbl >= 1,
            ;
            lemma_largest_fitting_block(dim_len, multiple, mbl / multiple);
        }
    }
}

/// Parameters of an array's block layout: the nd-block shape used to divide the array into
/// independently compressed blocks, which of its dimensions are fixed, the target block size and
/// the target read size. Every field is optional; what is unset is chosen by [`tune`](Self::tune).
#[derive(Clone, Debug)]
pub struct ArrayParams {
    pub block_shape: Option<Vec<BlockSize>>,
    pub block_shape_fixed_dims: Option<DimBitmap>,
    pub block_size: Option<u64>,
    pub read_size: Option<ReadSize>,
}

/// The CPU cache sizes, in bytes, that size the automatically chosen blocks and reads.
#[derive(Clone, Copy, Debug, PartialEq, Eq, Structural)]
pub struct CacheSizes {
    pub l1_data: u64,
    pub l2: u64,
}

/// The normalized read range of `(min, max)`: `min` floored at 1 and `max` raised to `min`.
pub open spec fn read_size_of(min: int, max: int) -> (int, int) {
    let lo = if min >= 1 { min } else { 1 };
    (lo, if max >= lo { max } else { lo })
}

/// Whether every flag is set.
pub open spec fn all_set(flags: Seq<bool>) -> bool {
    forall|d: int| 0 <= d < flags.len() ==> #[trigger] flags[d]
}

/// The fixed-dimension flags `tune` works with for an array of `ndim` dimensions: the given ones,
/// else every dimension fixed exactly when a block shape is given.
pub open spec fn tuned_fixed_dims(p: ArrayParams, ndim: int) -> Seq<bool> {
    match p.block_shape_fixed_dims {
        Some(b) => b@,
        None => Seq::new(ndim as nat, |d: int| p.block_shape is Some),
    }
}

/// The block size, in bytes, the block shape is scaled towards: the given one, else the L1 data
/// cache size when the shape is computed or scaled at all.
pub open spec fn target_block_size(p: ArrayParams, fixed: Seq<bool>, cache: CacheSizes) -> Option<
    u64,
> {
    if p.block_size is None && (p.block_shape is None || !all_set(fixed)) {
        Some(cache.l1_data)
    } else {
        p.block_size
    }
}

/// `block_shape` with every dimension that is not fixed set to 1.
pub open spec fn masked_block_shape(block_shape: Seq<int>, fixed: Seq<bool>) -> Seq<int> {
    Seq::new(block_shape.len(), |d: int| if fixed[d] { block_shape[d] } else { 1 })
}

/// The block shape `tune` starts from: the given one, else all ones scaled to the budget.
pub open spec fn initial_block_shape(p: ArrayParams, budget: int, shape: Seq<int>) -> Seq<int> {
    match p.block_shape {
        Some(b) => block_ints(b@),
        None => scaled_block_shape(
            Seq::new(shape.len(), |d: int| 1int),
            Seq::new(shape.len(), |d: int| true),
            budget,
            shape,
        ),
    }
}

/// The block shape `tune` settles on: the initial one when every dimension is fixed, else the
/// initial one with its free dimensions reset to 1 and scaled to the budget of
/// `target / itemsize` items.
pub open spec fn tuned_block_shape(
    p: ArrayParams,
    shape: Seq<u64>,
    itemsize: int,
    cache: CacheSizes,
) -> Seq<int> {
    let sh = extent_ints(shape);
    let fixed = tuned_fixed_dims(p, shape.len() as int);
    let budget = target_block_size(p, fixed, cache).unwrap() as int / itemsize;
    let initial = initial_block_shape(p, budget, sh);
    if all_set(fixed) {
        initial
    } else {
        scaled_block_shape(
            masked_block_shape(initial, fixed),
            Seq::new(shape.len(), |d: int| !fixed[d]),
            budget,
            sh,
        )
    }
}

/// A dimension that is fixed keeps the block length it was given: tuning scales only the free
/// dimensions.
pub proof fn lemma_tune_keeps_fixed_dims(
    p: ArrayParams,
    shape: Seq<u64>,
    itemsize: int,
    cache: CacheSizes,
    d: int,
)
    requires
        p.block_shape is Some,
        p.block_shape.unwrap()@.len() == shape.len(),
        tuned_fixed_dims(p, shape.len() as int).len() == shape.len(),
        0 <= d < shape.len(),
        tuned_fixed_dims(p, shape.len() as int)[d],
    ensures
        tuned_block_shape(p, shape, itemsize, cache)[d] == p.block_shape.unwrap()@[d] as int,
{
    let sh = extent_ints(shape);
    let fixed = tuned_fixed_dims(p, shape.len() as int);
    let budget = target_block_size(p, fixed, cache).unwrap() as int / itemsize;
    let initial = initial_block_shape(p, budget, sh);
    if !all_set(fixed) {
        let free = Seq::new(shape.len(), |e: int| !fixed[e]);
        lemma_scaled_suffix_keeps(masked_block_shape(initial, fixed), free, budget, sh, 0, d);
    }
}

/// Every block length is at least 1 and at most its dimension's extent (or 1 for an empty
/// dimension).
pub open spec fn valid_block_shape(block_shape: Seq<int>, shape: Seq<u64>) -> bool {
    &&& block_shape.len() == shape.len()
    &&& forall|d: int|
        0 <= d < shape.len() ==> 0 < #[trigger] block_shape[d] <= if shape[d] >= 1 {
            shape[d] as int
        } else {
            1
        }
}

/// The block shape, fixed flags and ndim check out, so `tune` goes on to compute the shape.
pub open spec fn tune_layout_consistent(p: ArrayParams, shape: Seq<u64>, itemsize: int) -> bool {
    &&& shape.len() <= NDIM_MAX
    &&& itemsize != 0
    &&& !(p.block_shape_fixed_dims is Some && p.block_shape is None)
    &&& tuned_fixed_dims(p, shape.len() as int).len() == shape.len()
    &&& (p.block_shape matches Some(b) ==> b@.len() == shape.len())
}

/// Which error `tune` reports, if any.
pub open spec fn tune_error(
    p: ArrayParams,
    shape: Seq<u64>,
    itemsize: int,
    cache: CacheSizes,
) -> Option<ErrorKind> {
    if shape.len() > NDIM_MAX {
        Some(ErrorKind::InvalidArgument)
    } else if itemsize == 0 {
        Some(ErrorKind::UnsupportedDtype)
    } else if !tune_layout_consistent(p, shape, itemsize) {
        Some(ErrorKind::InvalidArgument)
    } else if !valid_block_shape(tuned_block_shape(p, shape, itemsize, cache), shape) {
        Some(ErrorKind::InvalidArgument)
    } else {
        None
    }
}

/// The block size `tune` records: the target, else the byte size of the tuned block shape; at
/// least 1.
pub open spec fn tuned_block_size(
    p: ArrayParams,
    shape: Seq<u64>,
    itemsize: int,
    cache: CacheSizes,
) -> int {
    let fixed = tuned_fixed_dims(p, shape.len() as int);
    let size = match target_block_size(p, fixed, cache) {
        Some(b) => b as int,
        None => prefix_product(tuned_block_shape(p, shape, itemsize, cache), shape.len() as int)
            * itemsize,
    };
    if size >= 1 {
        size
    } else {
        1
    }
}

/// The read range `tune` records: the given one, else from half the L1 data cache or a
/// sixteenth of L2 (whichever is larger, and no less than the block size) to half of L2.
pub open spec fn tuned_read_size(p: ArrayParams, block_size: int, cache: CacheSizes) -> (int, int) {
    match p.read_size {
        Some(r) => (r.min as int, r.max as int),
        None => {
            let a = cache.l1_data / 2;
            let b = cache.l2 / 16;
            let m = if a >= b { a as int } else { b as int };
            read_size_of(if m >= block_size { m } else { block_size }, (cache.l2 / 2) as int)
        },
    }
}

/// A read range `tune` derives itself starts at one block at least, and its end is not below
/// its start; a given one is kept as it is.
pub proof fn lemma_tuned_read_size_covers_a_block(p: ArrayParams, block_size: int, cache: CacheSizes)
    ensures
        p.read_size is None ==> tuned_read_size(p, block_size, cache).0 >= block_size
            && tuned_read_size(p, block_size, cache).0 >= 1 && tuned_read_size(p, block_size, cache).0
            <= tuned_read_size(p, block_size, cache).1,
        p.read_size matches Some(r) ==> tuned_read_size(p, block_size, cache) == (
            r.min as int,
            r.max as int,
        ),
{
}

/// `tune` would divide by a zero block volume or overflow one: a fixed dimension of length 0
/// while a free dimension longer than 1 is scaled, or the volume of the block it scales does not
/// fit in a `u64`; or the block size it derives from the block shape does not fit in a `u64`.
pub open spec fn tune_overflows(
    p: ArrayParams,
    shape: Seq<u64>,
    itemsize: int,
    cache: CacheSizes,
) -> bool {
    let sh = extent_ints(shape);
    let fixed = tuned_fixed_dims(p, shape.len() as int);
    let budget = target_block_size(p, fixed, cache).unwrap() as int / itemsize;
    let masked = masked_block_shape(initial_block_shape(p, budget, sh), fixed);
    ||| {
        &&& tune_layout_consistent(p, shape, itemsize)
        &&& !all_set(fixed)
        &&& {
            ||| (exists|d: int| 0 <= d < shape.len() && fixed[d] && #[trigger] masked[d] == 0)
                && (exists|e: int| 0 <= e < shape.len() && !fixed[e] && #[trigger] shape[e] > 1)
            ||| prefix_product(masked, shape.len() as int) > u64::MAX
        }
    }
    ||| {
        &&& tune_error(p, shape, itemsize, cache) is None
        &&& target_block_size(p, fixed, cache) is None
        &&& prefix_product(tuned_block_shape(p, shape, itemsize, cache), shape.len() as int)
            * itemsize > u64::MAX
    }
}

impl ArrayParams {
    /// Parameters with every field unset.
    pub fn new() -> (r: Self)
        ensures
            r.block_shape is None,
            r.block_shape_fixed_dims is None,
            r.block_size is None,
            r.read_size is None,
    {
        ArrayParams { block_shape: None, block_shape_fixed_dims: None, block_size: None, read_size: None }
    }

    /// Sets the block shape, in items per dimension. Unless fixed flags are also set, every
    /// dimension of a given block shape counts as fixed.
    pub fn block_shape(&mut self, block_shape: &[BlockSize]) -> (r: &mut Self)
        requires
            block_shape@.len() <= NDIM_MAX,
        ensures
            r.block_shape matches Some(b) && b@ == block_shape@,
            r.block_shape_fixed_dims == old(self).block_shape_fixed_dims,
            r.block_size == old(self).block_size,
            r.read_size == old(self).read_size,
            *final(self) == *final(r),
    {
        let mut v: Vec<BlockSize> = Vec::new();
        let mut d: usize = 0;
        while d < block_shape.len()
            invariant
                d <= block_shape@.len(),
                v@ == block_shape@.subrange(0, d as int),
            decreases block_shape@.len() - d,
        {
            v.push(block_shape[d]);
            d += 1;
        }
        assert(v@ == block_shape@);
        self.block_shape = Some(v);
        self
    }

    /// Sets, per dimension, whether the block shape's length along it is fixed.
    pub fn block_shape_fixed_dims(&mut self, fixed: &[bool]) -> (r: &mut Self)
        requires
            fixed@.len() <= NDIM_MAX,
        ensures
            r.block_shape_fixed_dims matches Some(f) && f@ == fixed@,
            r.block_shape == old(self).block_shape,
            r.block_size == old(self).block_size,
            r.read_size == old(self).read_size,
            *final(self) == *final(r),
    {
        self.block_shape_fixed_dims = Some(DimBitmap::from_bools(fixed));
        self
    }

    /// Sets the target block size in bytes.
    pub fn block_size(&mut self, size_hint: u64) -> (r: &mut Self)
        ensures
            r.block_size == Some(size_hint),
            r.block_shape == old(self).block_shape,
            r.block_shape_fixed_dims == old(self).block_shape_fixed_dims,
            r.read_size == old(self).read_size,
            *final(self) == *final(r),
    {
        self.block_size = Some(size_hint);
        self
    }

    /// Sets the target byte range `(min, max)` of a single read region, normalized as
    /// [`ReadSize::new`] does.
    pub fn read_size(&mut self, size_hint: (u64, u64)) -> (r: &mut Self)
        ensures
            r.read_size matches Some(rs) && (rs.min as int, rs.max as int) == read_size_of(
                size_hint.0 as int,
                size_hint.1 as int,
            ),
            r.block_shape == old(self).block_shape,
            r.block_shape_fixed_dims == old(self).block_shape_fixed_dims,
            r.block_size == old(self).block_size,
            *final(self) == *final(r),
    {
        self.read_size = Some(ReadSize::new(size_hint.0, size_hint.1));
        self
    }

    /// `block_shape` scaled towards a volume of `block_size_max` items, as
    /// [`scaled_block_shape`] states: from the last dimension outward, each dimension with
    /// `scale_dim` set takes the length [`block_len_heuristic`](Self::block_len_heuristic) gives
    /// it for the budget and the block volume at that point; the others keep their length.
    pub fn scale_block_shape(
        block_shape: &[BlockSize],
        scale_dim: &[bool],
        block_size_max: u64,
        shape: &[u64],
    ) -> (r: Vec<BlockSize>)
        requires
            block_shape@.len() == shape@.len(),
            scale_dim@.len() == shape@.len(),
            forall|k: int|
                0 <= k <= block_shape@.len() ==> #[trigger] prefix_product(block_ints(block_shape@), k)
                    <= u64::MAX,
            scales_some_axis(scale_dim@, shape@) ==> forall|d: int|
                0 <= d < block_shape@.len() ==> block_shape@[d] >= 1,
        ensures
            block_ints(r@) == scaled_block_shape(
                block_ints(block_shape@),
                scale_dim@,
                block_size_max as int,
                extent_ints(shape@),
            ),
            r@.len() == shape@.len(),
    {
        let ndim = shape.len();
        if !Self::scales_some_axis_exec(scale_dim, shape) {
            return Self::unit_scaled_axes(block_shape, scale_dim, block_size_max, shape);
        }
        let ghost bsi = block_ints(block_shape@);
        let ghost shi = extent_ints(shape@);
        let ghost sd = scale_dim@;
        let ghost bmax = block_size_max as int;
        let mut volume: u64 = 1;
        let mut out: Vec<BlockSize> = Vec::new();
        let mut i: usize = 0;
        while i < ndim
            invariant
                i <= ndim,
                ndim == shape@.len(),
                ndim == block_shape@.len(),
                bsi == block_ints(block_shape@),
                forall|d: int| 0 <= d < ndim ==> bsi[d] >= 1,
                forall|k: int| 0 <= k <= ndim ==> #[trigger] prefix_product(bsi, k) <= u64::MAX,
                volume == prefix_product(bsi, i as int),
                out@ == block_shape@.subrange(0, i as int),
            decreases ndim - i,
        {
            assert(prefix_product(bsi, i as int + 1) <= u64::MAX);
            volume = volume * (block_shape[i] as u64);
            out.push(block_shape[i]);
            i += 1;
        }
        assert(out@ == block_shape@);
        proof {
            lemma_scaled_suffix(bsi, sd, bmax, shi, ndim as int);
            lemma_prefix_product_pos(bsi, ndim as int);
        }
        let mut k: usize = ndim;
        while k > 0
            invariant
                k <= ndim,
                ndim == shape@.len(),
                ndim == block_shape@.len(),
                ndim == scale_dim@.len(),
                bsi == block_ints(block_shape@),
                shi == extent_ints(shape@),
                sd == scale_dim@,
                bmax == block_size_max as int,
                forall|d: int| 0 <= d < ndim ==> bsi[d] >= 1,
                out@.len() == ndim,
                forall|e: int| 0 <= e < k ==> out@[e] == block_shape@[e],
                forall|e: int|
                    k <= e < ndim ==> out@[e] as int == scaled_suffix(bsi, sd, bmax, shi, k as int)[e
                        - k],
                scaled_suffix(bsi, sd, bmax, shi, k as int).len() == ndim - k,
                volume == prefix_product(bsi, k as int) * product_from(
                    scaled_suffix(bsi, sd, bmax, shi, k as int),
                    0,
                ),
                volume >= 1,
            decreases k,
        {
            let d = k - 1;
            let ghost rest = scaled_suffix(bsi, sd, bmax, shi, k as int);
            let ghost pre = prefix_product(bsi, d as int);
            proof {
                lemma_scaled_suffix(bsi, sd, bmax, shi, k as int);
                lemma_product_pos(rest, 0);
                lemma_prefix_product_pos(bsi, d as int);
                lemma_product_cons(bsi[d as int], rest, 0);
                assert(volume == pre * bsi[d as int] * product_from(rest, 0));
            }
            if scale_dim[d] {
                let bl = Self::block_len_heuristic(block_shape[d], shape[d], block_size_max, volume);
                let b = block_shape[d] as u64;
                proof {
                    lemma_product_cons(bl as int, rest, 0);
                    vstd::arithmetic::div_mod::lemma_div_by_multiple(
                        pre * product_from(rest, 0),
                        b as int,
                    );
                    assert(pre * b * product_from(rest, 0) == pre * product_from(rest, 0) * b)
                        by (nonlinear_arith);
                    assert(volume / b == pre * product_from(rest, 0));
                    assert((volume / b) * bl <= u64::MAX) by (nonlinear_arith)
                        requires
                            bl == 1 || bl * volume <= block_size_max,
                            volume / b == pre * product_from(rest, 0),
                            volume == pre * b * product_from(rest, 0),
                            b >= 1,
                            pre >= 1,
                            product_from(rest, 0) >= 1,
                            volume <= u64::MAX,
                            block_size_max <= u64::MAX,
                    ;
                    assert((volume / b) * bl >= 1) by (nonlinear_arith)
                        requires
                            bl >= 1,
                            volume / b == pre * product_from(rest, 0),
                            pre >= 1,
                            product_from(rest, 0) >= 1,
                    ;
                    assert((volume / b) * bl == pre * (bl * product_from(rest, 0)))
                        by (nonlinear_arith)
                        requires
                            volume / b == pre * product_from(rest, 0),
                    ;
                }
                volume = volume / b * (bl as u64);
                out.set(d, bl);
            }
            proof {
                let suf = scaled_suffix(bsi, sd, bmax, shi, d as int);
                assert(suf == seq![suf[0]] + rest);
                assert(product_from(suf, 0) == suf[0] * product_from(rest, 0));
                if !sd[d as int] {
                    assert(volume == pre * (bsi[d as int] * product_from(rest, 0))) by (nonlinear_arith)
                        requires
                            volume == pre * bsi[d as int] * product_from(rest, 0),
                    ;
                }
                assert(prefix_product(bsi, d as int) == pre);
            }
            k = d;
        }
        proof {
            assert(block_ints(out@) =~= scaled_suffix(bsi, sd, bmax, shi, 0));
        }
        out
    }

    /// Whether some scaled dimension is longer than 1, as [`scales_some_axis`] states.
    fn scales_some_axis_exec(scale_dim: &[bool], shape: &[u64]) -> (r: bool)
        requires
            scale_dim@.len() == shape@.len(),
        ensures
            r == scales_some_axis(scale_dim@, shape@),
    {
        let mut d: usize = 0;
        while d < shape.len()
            invariant
                d <= shape@.len(),
                scale_dim@.len() == shape@.len(),
                forall|e: int| 0 <= e < d ==> !(#[trigger] scale_dim@[e] && shape@[e] > 1),
            decreases shape@.len() - d,
        {
            if scale_dim[d] && shape[d] > 1 {
                return true;
            }
            d += 1;
        }
        false
    }

    /// The scaled block shape when no scaled dimension is longer than 1: every scaled dimension
    /// takes length 1 and the others keep theirs.
    fn unit_scaled_axes(
        block_shape: &[BlockSize],
        scale_dim: &[bool],
        block_size_max: u64,
        shape: &[u64],
    ) -> (r: Vec<BlockSize>)
        requires
            block_shape@.len() == shape@.len(),
            scale_dim@.len() == shape@.len(),
            !scales_some_axis(scale_dim@, shape@),
        ensures
            block_ints(r@) == scaled_block_shape(
                block_ints(block_shape@),
                scale_dim@,
                block_size_max as int,
                extent_ints(shape@),
            ),
            r@.len() == shape@.len(),
    {
        let ndim = shape.len();
        let ghost bsi = block_ints(block_shape@);
        let ghost shi = extent_ints(shape@);
        let mut out: Vec<BlockSize> = Vec::new();
        let mut d: usize = 0;
        while d < ndim
            invariant
                d <= ndim,
                ndim == shape@.len(),
                ndim == block_shape@.len(),
                ndim == scale_dim@.len(),
                out@.len() == d,
                forall|e: int|
                    0 <= e < d ==> #[trigger] out@[e] == if scale_dim@[e] {
                        1
                    } else {
                        block_shape@[e]
                    },
            decreases ndim - d,
        {
            if scale_dim[d] {
                out.push(1);
            } else {
                out.push(block_shape[d]);
            }
            d += 1;
        }
        proof {
            lemma_unit_scaled_suffix(bsi, scale_dim@, block_size_max as int, shi, shape@, 0);
            assert(block_ints(out@) =~= scaled_suffix(bsi, scale_dim@, block_size_max as int, shi, 0));
        }
        out
    }

    /// Fills in every unset field for an array of the given `shape` and `itemsize`, with the
    /// cache sizes `cache`, as the `tuned_*` spec functions state: the fixed-dimension flags, the
    /// block shape (given, or scaled to the target block size), the block size and the read range.
    /// On an error nothing changes.
    ///
    /// Errors, in this order: `InvalidArgument` when `shape` has more than [`NDIM_MAX`]
    /// dimensions; `UnsupportedDtype` when `itemsize` is 0; `InvalidArgument` when fixed flags are
    /// given without a block shape, when the flags or the block shape do not have one entry per
    /// dimension, or when the resulting block shape has a length of 0 or one beyond its extent.
    pub fn tune(&mut self, shape: &[u64], itemsize: u64, cache: CacheSizes) -> (r: Result<
        (),
        Error,
    >)
        requires
            !tune_overflows(*old(self), shape@, itemsize as int, cache),
        ensures
            match r {
                Ok(()) => {
                    &&& tune_error(*old(self), shape@, itemsize as int, cache) is None
                    &&& final(self).block_shape matches Some(b) && block_ints(b@)
                        == tuned_block_shape(*old(self), shape@, itemsize as int, cache)
                    &&& final(self).block_shape_fixed_dims matches Some(f) && f@ == tuned_fixed_dims(
                        *old(self),
                        shape@.len() as int,
                    )
                    &&& final(self).block_size matches Some(b) && b == tuned_block_size(
                        *old(self),
                        shape@,
                        itemsize as int,
                        cache,
                    )
                    &&& final(self).read_size matches Some(rs) && (rs.min as int, rs.max as int)
                        == tuned_read_size(
                        *old(self),
                        tuned_block_size(*old(self), shape@, itemsize as int, cache),
                        cache,
                    )
                    &&& old(self).read_size is None ==> final(self).read_size.unwrap().min
                        >= final(self).block_size.unwrap() && final(self).read_size.unwrap().min
                        <= final(self).read_size.unwrap().max
                    &&& old(self).read_size is Some ==> final(self).read_size == old(self).read_size
                },
                Err(e) => {
                    &&& tune_error(*old(self), shape@, itemsize as int, cache) == Some(e.kind)
                    &&& *final(self) == *old(self)
                },
            },
    {
        let ghost p = *self;
        let ghost sh = extent_ints(shape@);
        let ndim = shape.len();
        if ndim > NDIM_MAX {
            return Err(Error::new(ErrorKind::InvalidArgument));
        }
        if itemsize == 0 {
            return Err(Error::new(ErrorKind::UnsupportedDtype));
        }
        let has_shape = self.block_shape.is_some();
        if self.block_shape_fixed_dims.is_some() && !has_shape {
            return Err(Error::new(ErrorKind::InvalidArgument));
        }
        let fixed = match self.block_shape_fixed_dims {
            Some(b) => b,
            None => DimBitmap::filled(ndim, has_shape),
        };
        assert(fixed@ == tuned_fixed_dims(p, ndim as int));
        if fixed.len() != ndim {
            return Err(Error::new(ErrorKind::InvalidArgument));
        }
        let fixed_all = fixed.all();
        let target = if self.block_size.is_none() && (!has_shape || !fixed_all) {
            Some(cache.l1_data)
        } else {
            self.block_size
        };
        assert(target == target_block_size(p, fixed@, cache));
        let initial: Vec<BlockSize> = match &self.block_shape {
            Some(b) => {
                if b.len() != ndim {
                    return Err(Error::new(ErrorKind::InvalidArgument));
                }
                let c = b.clone();
                assert(c@ =~= b@);
                c
            },
            None => {
                let ones: Vec<BlockSize> = vec![1; ndim];
                let all: Vec<bool> = vec![true; ndim];
                assert(block_ints(ones@) =~= Seq::new(ndim as nat, |d: int| 1int));
                assert(all@ =~= Seq::new(ndim as nat, |d: int| true));
                proof {
                    assert(prefix_product(block_ints(ones@), ndim as int) <= 1) by {
                        lemma_prefix_product_ones(block_ints(ones@), ndim as int);
                    }
                    lemma_prefix_products_fit(block_ints(ones@));
                }
                Self::scale_block_shape(&ones, &all, target.unwrap() / itemsize, shape)
            },
        };
        let ghost budget = target_block_size(p, fixed@, cache).unwrap() as int / itemsize as int;
        assert(block_ints(initial@) == initial_block_shape(p, budget, sh));
        let block_shape = if fixed_all {
            initial
        } else {
            let masked = Self::masked_shape(&initial, fixed);
            let free = Self::free_dims(fixed);
            let mut d: usize = 0;
            let mut zero = false;
            while d < ndim
                invariant
                    d <= ndim,
                    ndim == masked@.len(),
                    zero <==> exists|e: int| 0 <= e < d && masked@[e] == 0,
                decreases ndim - d,
            {
                if masked[d] == 0 {
                    zero = true;
                }
                d += 1;
            }
            if zero {
                proof {
                    let e = choose|e: int| 0 <= e < ndim && masked@[e] == 0;
                    assert(block_ints(masked@)[e] == 0);
                    assert(fixed@[e]);
                    assert(!free@[e]);
                    lemma_scaled_suffix_len(block_ints(masked@), free@, budget, sh, 0);
                    lemma_scaled_suffix_keeps(block_ints(masked@), free@, budget, sh, 0, e);
                    assert(tuned_block_shape(p, shape@, itemsize as int, cache)[e] == 0);
                }
                return Err(Error::new(ErrorKind::InvalidArgument));
            }
            proof {
                assert forall|e: int| 0 <= e < ndim implies block_ints(masked@)[e] >= 1 by {
                    assert(masked@[e] != 0);
                }
                lemma_prefix_products_fit(block_ints(masked@));
            }
            Self::scale_block_shape(&masked, &free, target.unwrap() / itemsize, shape)
        };
        assert(block_ints(block_shape@) == tuned_block_shape(p, shape@, itemsize as int, cache));
        if !Self::block_shape_fits(&block_shape, shape) {
            return Err(Error::new(ErrorKind::InvalidArgument));
        }
        proof {
            assert forall|d: int| 0 <= d < block_shape@.len() implies block_shape@[d] >= 1 by {
                assert(block_ints(block_shape@)[d] > 0);
            }
        }
        let size = match target {
            Some(b) => b,
            None => Self::block_bytes(&block_shape, itemsize),
        };
        let block_size = if size >= 1 { size } else { 1 };
        let read_size = match self.read_size {
            Some(r) => r,
            None => {
                let a = cache.l1_data / 2;
                let b = cache.l2 / 16;
                let m = if a >= b { a } else { b };
                ReadSize::new(if m >= block_size { m } else { block_size }, cache.l2 / 2)
            },
        };
        proof {
            lemma_tuned_read_size_covers_a_block(p, block_size as int, cache);
        }
        self.block_shape = Some(block_shape);
        self.block_shape_fixed_dims = Some(fixed);
        self.block_size = Some(block_size);
        self.read_size = Some(read_size);
        Ok(())
    }

    /// `block_shape` with each dimension that is not fixed set to 1.
    fn masked_shape(block_shape: &Vec<BlockSize>, fixed: DimBitmap) -> (r: Vec<BlockSize>)
        requires
            block_shape@.len() == fixed@.len(),
        ensures
            block_ints(r@) == masked_block_shape(block_ints(block_shape@), fixed@),
            r@.len() == block_shape@.len(),
    {
        let n = block_shape.len();
        let mut r: Vec<BlockSize> = Vec::new();
        let mut d: usize = 0;
        while d < n
            invariant
                d <= n,
                n == block_shape@.len(),
                n == fixed@.len(),
                r@.len() == d,
                forall|e: int|
                    0 <= e < d ==> r@[e] == if fixed@[e] {
                        block_shape@[e]
                    } else {
                        1
                    },
            decreases n - d,
        {
            r.push(if fixed.get(d) { block_shape[d] } else { 1 });
            d += 1;
        }
        assert(block_ints(r@) =~= masked_block_shape(block_ints(block_shape@), fixed@));
        r
    }

    /// The flags of the dimensions that are not fixed.
    fn free_dims(fixed: DimBitmap) -> (r: Vec<bool>)
        ensures
            r@ == Seq::new(fixed@.len(), |d: int| !fixed@[d]),
    {
        let n = fixed.len();
        let mut r: Vec<bool> = Vec::new();
        let mut d: usize = 0;
        while d < n
            invariant
                d <= n,
                n == fixed@.len(),
                r@.len() == d,
                forall|e: int| 0 <= e < d ==> r@[e] == !fixed@[e],
            decreases n - d,
        {
            r.push(!fixed.get(d));
            d += 1;
        }
        assert(r@ =~= Seq::new(fixed@.len(), |d: int| !fixed@[d]));
        r
    }

    /// Whether every block length is at least 1 and at most its extent (or 1 for an empty
    /// dimension).
    fn block_shape_fits(block_shape: &Vec<BlockSize>, shape: &[u64]) -> (r: bool)
        ensures
            r == valid_block_shape(block_ints(block_shape@), shape@),
    {
        if block_shape.len() != shape.len() {
            return false;
        }
        let n = shape.len();
        let mut ok = true;
        let mut d: usize = 0;
        while d < n
            invariant
                d <= n,
                n == shape@.len(),
                n == block_shape@.len(),
                ok <==> forall|e: int|
                    0 <= e < d ==> 0 < #[trigger] block_ints(block_shape@)[e] <= if shape@[e]
                        >= 1 {
                        shape@[e] as int
                    } else {
                        1
                    },
            decreases n - d,
        {
            let b = block_shape[d] as u64;
            let s = if shape[d] >= 1 { shape[d] } else { 1 };
            assert(block_ints(block_shape@)[d as int] == b);
            if !(b > 0 && b <= s) {
                ok = false;
            }
            d += 1;
        }
        ok
    }

    /// The byte size of a block: the product of the block lengths times `itemsize`.
    fn block_bytes(block_shape: &Vec<BlockSize>, itemsize: u64) -> (r: u64)
        requires
            forall|d: int| 0 <= d < block_shape@.len() ==> block_shape@[d] >= 1,
            prefix_product(block_ints(block_shape@), block_shape@.len() as int) * itemsize
                <= u64::MAX,
            itemsize >= 1,
        ensures
            r == prefix_product(block_ints(block_shape@), block_shape@.len() as int) * itemsize,
    {
        let ghost s = block_ints(block_shape@);
        let n = block_shape.len();
        let mut v: u64 = 1;
        let mut d: usize = 0;
        while d < n
            invariant
                d <= n,
                n == block_shape@.len(),
                s == block_ints(block_shape@),
                forall|e: int| 0 <= e < n ==> s[e] >= 1,
                prefix_product(s, n as int) * itemsize <= u64::MAX,
                itemsize >= 1,
                v == prefix_product(s, d as int),
            decreases n - d,
        {
            proof {
                lemma_prefix_product_mono(s, d as int + 1, n as int);
                assert(prefix_product(s, n as int) <= prefix_product(s, n as int) * itemsize)
                    by (nonlinear_arith)
                    requires
                        itemsize >= 1,
                        prefix_product(s, n as int) >= 1,
                ;
            }
            v = v * (block_shape[d] as u64);
            d += 1;
        }
        v * itemsize
    }

    /// The block length chosen for one dimension of `dim_len` items: `1` for a dimension of at
    /// most one item, otherwise the whole dimension when the budget
    /// `max_volume / inner_block_volume` covers it, otherwise the largest multiple of a
    /// power-of-two granularity that needs at most 12.5% padding.
    pub fn block_len_heuristic(
        base_block_len: BlockSize,
        dim_len: u64,
        max_volume: u64,
        inner_block_volume: u64,
    ) -> (r: BlockSize)
        requires
            dim_len > 1 ==> base_block_len >= 1 && inner_block_volume >= 1,
        ensures
            r == block_len_heuristic_spec(
                base_block_len as int,
                dim_len as int,
                max_volume as int,
                inner_block_volume as int,
            ),
            1 <= r,
            dim_len >= 1 ==> r <= dim_len,
            r == 1 || r * inner_block_volume <= max_volume,
    {
        if dim_len <= 1 {
            return 1;
        }
        let base = base_block_len as u64;
        let by_budget = max_volume / inner_block_volume;
        let capped1 = if by_budget <= dim_len { by_budget } else { dim_len };
        let capped = if capped1 <= 0x4000_0000 { capped1 } else { 0x4000_0000 };
        let q = capped / base;
        assert(q * base <= capped) by (nonlinear_arith)
            requires
                q == capped / base,
                base >= 1,
                capped >= 0,
        ;
        let floored = q * base;
        proof {
            vstd::arithmetic::div_mod::lemma_div_pos_is_pos(max_volume as int, inner_block_volume as int);
            assert(by_budget * inner_block_volume <= max_volume) by (nonlinear_arith)
                requires
                    by_budget == max_volume / inner_block_volume,
                    inner_block_volume >= 1,
            ;
        }
        let mbl = if floored >= 1 { floored } else { 1 };
        assert(mbl == max_block_len(
            base_block_len as int,
            dim_len as int,
            max_volume as int,
            inner_block_volume as int,
        ));
        let block_len = if mbl == dim_len {
            dim_len
        } else {
            let multiple = block_multiple_exec(base, dim_len, mbl);
            proof {
                vstd::arithmetic::div_mod::lemma_div_pos_is_pos(mbl as int, multiple as int);
                assert((mbl / multiple) * multiple <= mbl) by (nonlinear_arith)
                    requires
                        multiple >= 1,
                        mbl >= 0,
                ;
            }
            let found = largest_fitting_exec(dim_len, multiple, mbl / multiple);
            proof {
                lemma_largest_fitting_block(dim_len as int, multiple as int, (mbl / multiple) as int);
            }
            found
        };
        assert(block_len <= mbl);
        proof {
            if floored >= 1 {
                assert(mbl * inner_block_volume <= max_volume) by (nonlinear_arith)
                    requires
                        mbl <= by_budget,
                        by_budget * inner_block_volume <= max_volume,
                        inner_block_volume >= 1,
                ;
                assert(block_len * inner_block_volume <= max_volume) by (nonlinear_arith)
                    requires
                        block_len <= mbl,
                        mbl * inner_block_volume <= max_volume,
                ;
            }
        }
        block_len as u32
    }
}

// ---------------------------------------------------------------------------
// Layout hints of several inputs
// ---------------------------------------------------------------------------

/// The largest block length of dimension `d` among the first `k` inputs (1 when there is none).
pub open spec fn column_max(inputs: Seq<(&[BlockSize], DimBitmap)>, d: int, k: int) -> int
    decreases k,
{
    if k <= 0 {
        1
    } else if k == 1 {
        inputs[0].0@[d] as int
    } else {
        let m = column_max(inputs, d, k - 1);
        let x = inputs[k - 1].0@[d] as int;
        if x > m {
            x
        } else {
            m
        }
    }
}

/// The combined layout of dimension `d` is fixed: every input has the same (hence the largest)
/// block length along it, and at least one input fixes it.
pub open spec fn combined_fixed(inputs: Seq<(&[BlockSize], DimBitmap)>, d: int) -> bool {
    &&& forall|i: int| 0 <= i < inputs.len() ==> #[trigger] inputs[i].0@[d] as int == column_max(
        inputs,
        d,
        inputs.len() as int,
    )
    &&& exists|i: int| 0 <= i < inputs.len() && #[trigger] inputs[i].1@[d]
}

proof fn lemma_column_max(inputs: Seq<(&[BlockSize], DimBitmap)>, d: int, k: int)
    requires
        1 <= k <= inputs.len(),
    ensures
        forall|i: int| 0 <= i < k ==> inputs[i].0@[d] as int <= column_max(inputs, d, k),
        exists|i: int| 0 <= i < k && inputs[i].0@[d] as int == column_max(inputs, d, k),
    decreases k,
{
    if k > 1 {
        lemma_column_max(inputs, d, k - 1);
        let m = column_max(inputs, d, k - 1);
        let x = inputs[k - 1].0@[d] as int;
        if x > m {
            assert(inputs[k - 1].0@[d] as int == column_max(inputs, d, k));
        } else {
            let w = choose|i: int| 0 <= i < k - 1 && inputs[i].0@[d] as int == m;
            assert(inputs[w].0@[d] as int == column_max(inputs, d, k));
        }
    } else {
        assert(inputs[0].0@[d] as int == column_max(inputs, d, k));
    }
}

/// Combines the block layouts of several inputs of equal ndim: each dimension takes the largest
/// block length among the inputs, and is fixed when every input has that same length and at
/// least one input fixes it.
pub fn combine_block_layout(inputs: &[(&[BlockSize], DimBitmap)]) -> (r: (Vec<BlockSize>, DimBitmap))
    requires
        inputs@.len() >= 1,
        inputs@[0].0@.len() <= NDIM_MAX,
        forall|i: int|
            0 <= i < inputs@.len() ==> #[trigger] inputs@[i].0@.len() == inputs@[0].0@.len()
                && inputs@[i].1@.len() == inputs@[0].0@.len(),
    ensures
        r.0@.len() == inputs@[0].0@.len(),
        r.1@.len() == inputs@[0].0@.len(),
        forall|d: int|
            0 <= d < r.0@.len() ==> #[trigger] r.0@[d] as int == column_max(
                inputs@,
                d,
                inputs@.len() as int,
            ),
        forall|d: int| 0 <= d < r.1@.len() ==> #[trigger] r.1@[d] == combined_fixed(inputs@, d),
{
    let ndim = inputs[0].0.len();
    let n = inputs.len();
    let mut block_shape: Vec<BlockSize> = Vec::new();
    let mut fixed = DimBitmap::filled(ndim, false);
    let mut d: usize = 0;
    while d < ndim
        invariant
            d <= ndim,
            ndim == inputs@[0].0@.len(),
            ndim <= NDIM_MAX,
            n == inputs@.len(),
            n >= 1,
            forall|i: int|
                0 <= i < inputs@.len() ==> #[trigger] inputs@[i].0@.len() == ndim
                    && inputs@[i].1@.len() == ndim,
            block_shape@.len() == d,
            fixed@.len() == ndim,
            forall|e: int|
                0 <= e < d ==> #[trigger] block_shape@[e] as int == column_max(
                    inputs@,
                    e,
                    n as int,
                ),
            forall|e: int| 0 <= e < d ==> #[trigger] fixed@[e] == combined_fixed(inputs@, e),
        decreases ndim - d,
    {
        let mut m: BlockSize = inputs[0].0[d];
        let mut i: usize = 1;
        while i < n
            invariant
                1 <= i <= n,
                n == inputs@.len(),
                d < ndim,
                forall|j: int| 0 <= j < inputs@.len() ==> #[trigger] inputs@[j].0@.len() == ndim,
                m as int == column_max(inputs@, d as int, i as int),
            decreases n - i,
        {
            let x = inputs[i].0[d];
            if x > m {
                m = x;
            }
            i += 1;
        }
        let mut all_equal = true;
        let mut any_fixed = false;
        let mut i: usize = 0;
        while i < n
            invariant
                i <= n,
                n == inputs@.len(),
                d < ndim,
                forall|j: int|
                    0 <= j < inputs@.len() ==> #[trigger] inputs@[j].0@.len() == ndim
                        && inputs@[j].1@.len() == ndim,
                all_equal <==> forall|j: int| 0 <= j < i ==> #[trigger] inputs@[j].0@[d as int] == m,
                any_fixed <==> exists|j: int| 0 <= j < i && #[trigger] inputs@[j].1@[d as int],
            decreases n - i,
        {
            if inputs[i].0[d] != m {
                all_equal = false;
            }
            if inputs[i].1.get(d) {
                any_fixed = true;
            }
            i += 1;
        }
        block_shape.push(m);
        fixed.set(d, all_equal && any_fixed);
        d += 1;
    }
    (block_shape, fixed)
}

/// The index of the first entry of `order` from `i` on that is greater than `dim`, or the length
/// of `order` when there is none.
pub open spec fn first_greater(order: Seq<DimIdx>, dim: int, i: int) -> int
    decreases order.len() - i,
{
    if i < 0 || i >= order.len() {
        order.len() as int
    } else if order[i] > dim {
        i
    } else {
        first_greater(order, dim, i + 1)
    }
}

/// Inserts `dim` into a read layout order, in front of the first dimension greater than it (at
/// the end when there is none): where a dimension whose position carries no meaning goes.
pub fn read_layout_order_insert_dont_care_dim(order: &mut ArrayVec<DimIdx, 8>, dim: usize)
    requires
        old(order)@.len() < 8,
        dim <= DimIdx::MAX,
        !old(order)@.contains(dim as DimIdx),
    ensures
        final(order)@ == old(order)@.insert(first_greater(old(order)@, dim as int, 0), dim as DimIdx),
{
    let ghost before = order@;
    let n = order.len();
    let mut pos: usize = 0;
    let mut found = false;
    while pos < n && !found
        invariant
            pos <= n,
            n == order@.len(),
            order@ == before,
            !found ==> first_greater(before, dim as int, 0) == first_greater(before, dim as int, pos as int),
            found ==> first_greater(before, dim as int, 0) == pos,
        decreases n - pos + if found { 0int } else { 1int },
    {
        if *order.get(pos) as usize > dim {
            found = true;
        } else {
            pos += 1;
        }
    }
    order.insert(pos, dim as DimIdx);
}


/// The seed of a read tile: the block length on the selected dims, 1 on the others.
pub open spec fn read_seed(block_shape: Seq<BlockSize>, selected: Seq<bool>) -> Seq<int> {
    Seq::new(block_shape.len(), |d: int| if selected[d] { block_shape[d] as int } else { 1 })
}

/// The dims of the scale order that are selected, in the same order.
pub open spec fn selected_order(order: Seq<DimIdx>, selected: Seq<bool>) -> Seq<usize> {
    order.map_values(|d: DimIdx| d as usize).filter(|d: usize| selected[d as int])
}

/// A read tile over the dims marked in `selected`, scaled to `target_nitems` items: the selected
/// dims are seeded from `block_shape` and scaled by [`crate::util::scale_read_shape`] in the order
/// of `scale_order` (restricted to the selected dims); the other dims stay at length 1.
pub fn read_shape_scale_dims(
    block_shape: &[BlockSize],
    scale_order: &[DimIdx],
    max_shape: &[u64],
    array_shape: &[u64],
    target_nitems: (u64, u64),
    selected: &[bool],
) -> (r: Vec<u64>)
    requires
        block_shape@.len() == max_shape@.len(),
        array_shape@.len() == max_shape@.len(),
        selected@.len() == max_shape@.len(),
        scale_order@.len() <= NDIM_MAX,
        scale_order@.len() <= max_shape@.len(),
        forall|i: int| 0 <= i < scale_order@.len() ==> #[trigger] scale_order@[i] < max_shape@.len(),
        target_nitems.1 <= 0x8000_0000_0000_0000,
        forall|k: int|
            0 <= k <= max_shape@.len() ==> #[trigger] prefix_product(
                clamp_read_dims(
                    read_seed(block_shape@, selected@),
                    u64_ints(max_shape@),
                    selected_order(scale_order@, selected@),
                    selected_order(scale_order@, selected@).len() as int,
                ),
                k,
            ) <= u64::MAX,
    ensures
        u64_ints(r@) == scaled_read_shape(
            read_seed(block_shape@, selected@),
            u64_ints(max_shape@),
            u64_ints(array_shape@),
            target_nitems.0 as int,
            target_nitems.1 as int,
            selected_order(scale_order@, selected@),
        ),
{
    let ndim = max_shape.len();
    let mut read_shape: Vec<u64> = Vec::new();
    let mut d: usize = 0;
    while d < ndim
        invariant
            d <= ndim,
            ndim == max_shape@.len(),
            block_shape@.len() == ndim,
            selected@.len() == ndim,
            read_shape@.len() == d,
            forall|j: int| 0 <= j < d ==> #[trigger] read_shape@[j] as int == read_seed(
                block_shape@,
                selected@,
            )[j],
        decreases ndim - d,
    {
        if selected[d] {
            read_shape.push(block_shape[d] as u64);
        } else {
            read_shape.push(1);
        }
        d += 1;
    }
    assert(u64_ints(read_shape@) =~= read_seed(block_shape@, selected@));
    let ghost ord = scale_order@.map_values(|x: DimIdx| x as usize);
    let ghost pred = |x: usize| selected@[x as int];
    let mut order: Vec<usize> = Vec::new();
    let mut i: usize = 0;
    while i < scale_order.len()
        invariant
            i <= scale_order@.len(),
            ord == scale_order@.map_values(|x: DimIdx| x as usize),
            pred == (|x: usize| selected@[x as int]),
            selected@.len() == ndim,
            forall|x: int| 0 <= x < scale_order@.len() ==> #[trigger] scale_order@[x] < ndim,
            order@ == ord.take(i as int).filter(pred),
            order@.len() <= i,
            forall|x: int| 0 <= x < order@.len() ==> #[trigger] order@[x] < ndim,
        decreases scale_order@.len() - i,
    {
        proof {
            assert(ord.take(i as int + 1) =~= ord.take(i as int).push(ord[i as int]));
            ord.take(i as int).lemma_filter_push(ord[i as int], pred);
        }
        let dim = scale_order[i] as usize;
        if selected[dim] {
            order.push(dim);
        }
        i += 1;
    }
    proof {
        assert(ord.take(scale_order@.len() as int) =~= ord);
        assert(order@ == selected_order(scale_order@, selected@));
    }
    scale_read_shape(read_shape.as_mut_slice(), max_shape, array_shape, target_nitems, order.as_slice());
    read_shape
}

} // verus!

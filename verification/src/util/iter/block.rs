use vstd::prelude::*;
use crate::util::iter::nd::{MergeExtension, NdIterBuilder, NdIterExtension};

verus! {

// ---------------------------------------------------------------------------
// The part of a block that lies in a range
// ---------------------------------------------------------------------------

/// One past the last block, of `s` items each, touched by the item range `begin..end` (the first
/// is `begin / s`); an empty range touches none.
pub open spec fn block_range_end(begin: int, end: int, s: int) -> int {
    if begin == end {
        end / s
    } else {
        (end + s - 1) / s
    }
}

/// Block `k` (of `s` items) is one of those touched by `begin..end`.
pub open spec fn touches(begin: int, end: int, s: int, k: int) -> bool {
    begin / s <= k < block_range_end(begin, end, s)
}

/// The offset, within block `k` of `s` items, of the first item of the block in `begin..`.
pub open spec fn clip_offset(begin: int, s: int, k: int) -> int {
    if begin > k * s {
        begin - k * s
    } else {
        0
    }
}

/// The number of items of block `k` (of `s` items) that lie in `begin..end`.
pub open spec fn clip_len(begin: int, end: int, s: int, k: int) -> int {
    let lo = if begin > k * s {
        begin
    } else {
        k * s
    };
    let hi = if end < (k + 1) * s {
        end
    } else {
        (k + 1) * s
    };
    hi - lo
}

/// The blocks at either end of the block range of one dimension.
struct BlocksIterBorder {
    /// The block index of this border block.
    index: u64,
    /// The offset inside the block where the requested range begins.
    inner_offset: u64,
    /// The number of items of this block in the requested range.
    length: u64,
}

/// The two border blocks of `begin..end` in blocks of `s` items, as `new` sets them up.
spec fn borders_of(
    low: BlocksIterBorder,
    high: BlocksIterBorder,
    begin: int,
    end: int,
    s: int,
) -> bool {
    &&& low.index == begin / s
    &&& low.inner_offset == begin % s
    &&& low.length == if s - begin % s < end - begin {
        s - begin % s
    } else {
        end - begin
    }
    &&& high.index == end / s
    &&& high.inner_offset == if begin / s != end / s {
        0
    } else {
        begin % s
    }
    &&& high.length == end % s - high.inner_offset
}

/// For a touched block `k`, the low border describes it when it is the first block, the high
/// border when it is the last one, and the block lies wholly in the range otherwise.
pub proof fn lemma_border_parts(begin: int, end: int, s: int, k: int)
    requires
        0 <= begin <= end,
        s > 0,
        touches(begin, end, s, k),
    ensures
        k == begin / s ==> clip_offset(begin, s, k) == begin % s && clip_len(begin, end, s, k) == (
        if s - begin % s < end - begin {
            s - begin % s
        } else {
            end - begin
        }),
        k != begin / s ==> clip_offset(begin, s, k) == 0,
        k != begin / s && k == end / s ==> clip_len(begin, end, s, k) == end % s,
        k != begin / s && k != end / s ==> clip_len(begin, end, s, k) == s,
{
    let q = begin / s;
    let r = begin % s;
    let qe = end / s;
    let re = end % s;
    vstd::arithmetic::div_mod::lemma_fundamental_div_mod(begin, s);
    vstd::arithmetic::div_mod::lemma_fundamental_div_mod(end, s);
    assert(begin != end);
    assert(k < (end + s - 1) / s);
    // k * s < end
    vstd::arithmetic::div_mod::lemma_fundamental_div_mod(end + s - 1, s);
    let c = (end + s - 1) / s;
    assert(k * s < end) by (nonlinear_arith)
        requires
            k < c,
            s * c + (end + s - 1) % s == end + s - 1,
            0 <= (end + s - 1) % s < s,
            s > 0,
    ;
    assert(q <= k);
    assert(q * s <= k * s) by (nonlinear_arith)
        requires
            q <= k,
            s > 0,
    ;
    if k == q {
        assert(begin == k * s + r);
        assert((k + 1) * s == k * s + s) by (nonlinear_arith);
    } else {
        assert((q + 1) * s <= k * s) by (nonlinear_arith)
            requires
                q + 1 <= k,
                s > 0,
        ;
        assert(begin <= k * s) by (nonlinear_arith)
            requires
                begin == q * s + r,
                r < s,
                (q + 1) * s <= k * s,
        ;
        assert((k + 1) * s == k * s + s) by (nonlinear_arith);
        if k == qe {
            assert(end == k * s + re);
        } else {
            // k * s < end and k != end / s, so the whole block lies below end
            assert(k <= qe) by (nonlinear_arith)
                requires
                    k * s < end,
                    end == qe * s + re,
                    0 <= re < s,
                    s > 0,
            ;
            assert((k + 1) * s <= qe * s) by (nonlinear_arith)
                requires
                    k + 1 <= qe,
                    s > 0,
            ;
        }
    }
}

/// The number of items of `begin..end` in the block holding `begin` (blocks of `s` items): the
/// rest of that block, or the whole range when it ends sooner (0 for an empty range).
pub open spec fn first_part_len(begin: int, end: int, s: int) -> int {
    let rest = s - begin % s;
    if rest < end - begin {
        rest
    } else {
        end - begin
    }
}

// ---------------------------------------------------------------------------
// The extension
// ---------------------------------------------------------------------------

/// An nd-iterator extension that tracks, as a block-space index advances through the blocks
/// touched by an element-space range `[begin, end)`, which items of the current block fall in the
/// range: per dimension, the offset of the first of them inside the block and their number.
///
/// Interior blocks (wholly covered) have offset 0 and the full block length; border blocks carry
/// their partial values.
pub struct NdIterExtBlockOffsetSize {
    /// The size of a full block in each dimension.
    block_shape: Vec<u64>,
    /// Low and high border descriptors for each dimension.
    borders: Vec<(BlocksIterBorder, BlocksIterBorder)>,
    /// Per-dimension item offset within the current block.
    inner_offset: Vec<u64>,
    /// Per-dimension number of items of the current block in the range.
    current_block_size: Vec<u64>,
    range_begin: Ghost<Seq<int>>,
    range_end: Ghost<Seq<int>>,
}

impl NdIterExtBlockOffsetSize {
    /// The size of a full block in each dimension.
    pub closed spec fn block_shape(&self) -> Seq<u64> {
        self.block_shape@
    }

    /// The first item of the range, per dimension.
    pub closed spec fn range_begin(&self) -> Seq<int> {
        self.range_begin@
    }

    /// One past the last item of the range, per dimension.
    pub closed spec fn range_end(&self) -> Seq<int> {
        self.range_end@
    }

    /// The current offsets.
    pub closed spec fn offsets(&self) -> Seq<u64> {
        self.inner_offset@
    }

    /// The current numbers of items.
    pub closed spec fn sizes(&self) -> Seq<u64> {
        self.current_block_size@
    }

    /// The number of dimensions.
    pub open spec fn ndim(&self) -> int {
        self.block_shape().len() as int
    }

    /// Block `k` of dimension `d` is touched by the range.
    pub open spec fn touched(&self, d: int, k: int) -> bool {
        touches(self.range_begin()[d], self.range_end()[d], self.block_shape()[d] as int, k)
    }

    /// The offsets and sizes are those of the block at `index`, in each dimension where that
    /// block is touched by the range.
    pub open spec fn describes(&self, index: Seq<int>) -> bool {
        &&& index.len() == self.ndim()
        &&& self.offsets().len() == self.ndim()
        &&& self.sizes().len() == self.ndim()
        &&& forall|d: int|
            #![trigger self.offsets()[d]]
            #![trigger self.sizes()[d]]
            0 <= d < self.ndim() && self.touched(d, index[d]) ==> {
                &&& self.offsets()[d] == clip_offset(
                    self.range_begin()[d],
                    self.block_shape()[d] as int,
                    index[d],
                )
                &&& self.sizes()[d] == clip_len(
                    self.range_begin()[d],
                    self.range_end()[d],
                    self.block_shape()[d] as int,
                    index[d],
                )
            }
    }

    /// The first block of the range, per dimension.
    pub open spec fn first_block(&self) -> Seq<int> {
        Seq::new(
            self.ndim() as nat,
            |d: int| self.range_begin()[d] / (self.block_shape()[d] as int),
        )
    }

    /// The per-dimension vectors all have one entry per dimension.
    pub closed spec fn lengths_ok(&self) -> bool {
        let n = self.block_shape@.len();
        &&& self.borders@.len() == n
        &&& self.inner_offset@.len() == n
        &&& self.current_block_size@.len() == n
    }

    /// The internal consistency of the borders.
    pub closed spec fn borders_ok(&self) -> bool {
        let n = self.block_shape@.len();
        &&& self.lengths_ok()
        &&& self.range_begin@.len() == n
        &&& self.range_end@.len() == n
        &&& forall|d: int| 0 <= d < n ==> #[trigger] self.dim_ok(d)
    }

    /// The range and the borders of dimension `d` agree.
    pub closed spec fn dim_ok(&self, d: int) -> bool {
        &&& 0 <= self.range_begin@[d] <= self.range_end@[d] <= u64::MAX
        &&& self.block_shape@[d] > 0
        &&& borders_of(
            self.borders@[d].0,
            self.borders@[d].1,
            self.range_begin@[d],
            self.range_end@[d],
            self.block_shape@[d] as int,
        )
    }

    /// The borders stay consistent when only the current offsets and sizes change.
    proof fn lemma_borders_kept(a: &Self, b: &Self)
        requires
            a.borders_ok(),
            b.block_shape@ == a.block_shape@,
            b.borders@ == a.borders@,
            b.range_begin@ == a.range_begin@,
            b.range_end@ == a.range_end@,
            b.inner_offset@.len() == a.inner_offset@.len(),
            b.current_block_size@.len() == a.current_block_size@.len(),
        ensures
            b.borders_ok(),
    {
        assert forall|d: int| 0 <= d < b.block_shape@.len() implies #[trigger] b.dim_ok(d) by {
            assert(a.dim_ok(d));
        }
    }

    /// The part of block `after` of dimension `dim` that lies in the range.
    fn block_part(&self, dim: usize, after: u64) -> (r: (u64, u64))
        requires
            dim < self.block_shape@.len(),
            dim < self.borders@.len(),
        ensures
            self.borders_ok() && self.touched(dim as int, after as int) ==> r.0 == clip_offset(
                self.range_begin()[dim as int],
                self.block_shape()[dim as int] as int,
                after as int,
            ) && r.1 == clip_len(
                self.range_begin()[dim as int],
                self.range_end()[dim as int],
                self.block_shape()[dim as int] as int,
                after as int,
            ),
    {
        let low = &self.borders[dim].0;
        let high = &self.borders[dim].1;
        proof {
            if self.borders_ok() && self.touched(dim as int, after as int) {
                assert(self.dim_ok(dim as int));
                lemma_border_parts(
                    self.range_begin@[dim as int],
                    self.range_end@[dim as int],
                    self.block_shape@[dim as int] as int,
                    after as int,
                );
            }
        }
        if after == low.index {
            (low.inner_offset, low.length)
        } else if after == high.index {
            (high.inner_offset, high.length)
        } else {
            (0, self.block_shape[dim])
        }
    }

    /// Creates the extension for the range `[begin, end)` split into blocks of `block_shape`,
    /// positioned at the first block of the range.
    pub fn new(begin: &[u64], end: &[u64], block_shape: Vec<u64>) -> (r: Self)
        requires
            begin@.len() == end@.len(),
            begin@.len() == block_shape@.len(),
            forall|d: int| 0 <= d < begin@.len() ==> #[trigger] begin@[d] <= end@[d],
            forall|d: int| 0 <= d < block_shape@.len() ==> #[trigger] block_shape@[d] > 0,
        ensures
            r.block_shape() == block_shape@,
            r.range_begin() == Seq::new(begin@.len(), |d: int| begin@[d] as int),
            r.range_end() == Seq::new(end@.len(), |d: int| end@[d] as int),
            r.lengths_ok(),
            forall|o: Seq<int>| #[trigger] r.tracks(o, r.first_block()),
            forall|d: int|
                0 <= d < begin@.len() ==> #[trigger] r.offsets()[d] == begin@[d] % block_shape@[d]
                    && r.sizes()[d] == first_part_len(begin@[d] as int, end@[d] as int, block_shape@[d] as int),
    {
        let ndim = begin.len();
        let ghost gb = Seq::new(begin@.len(), |d: int| begin@[d] as int);
        let ghost ge = Seq::new(end@.len(), |d: int| end@[d] as int);
        let mut borders: Vec<(BlocksIterBorder, BlocksIterBorder)> = Vec::new();
        let mut inner_offset: Vec<u64> = Vec::new();
        let mut current_block_size: Vec<u64> = Vec::new();
        let mut dim: usize = 0;
        while dim < ndim
            invariant
                dim <= ndim,
                ndim == begin@.len(),
                ndim == end@.len(),
                ndim == block_shape@.len(),
                gb == Seq::new(begin@.len(), |d: int| begin@[d] as int),
                ge == Seq::new(end@.len(), |d: int| end@[d] as int),
                forall|d: int| 0 <= d < ndim ==> #[trigger] begin@[d] <= end@[d],
                forall|d: int| 0 <= d < ndim ==> #[trigger] block_shape@[d] > 0,
                borders@.len() == dim,
                inner_offset@.len() == dim,
                current_block_size@.len() == dim,
                forall|d: int|
                    0 <= d < dim ==> #[trigger] borders_of(
                        borders@[d].0,
                        borders@[d].1,
                        gb[d],
                        ge[d],
                        block_shape@[d] as int,
                    ),
                forall|d: int|
                    0 <= d < dim ==> #[trigger] inner_offset@[d] == borders@[d].0.inner_offset
                        && current_block_size@[d] == borders@[d].0.length,
                forall|d: int|
                    0 <= d < dim ==> #[trigger] inner_offset@[d] == begin@[d] % block_shape@[d]
                        && current_block_size@[d] == first_part_len(begin@[d] as int, end@[d] as int, block_shape@[d] as int),
            decreases ndim - dim,
        {
            let b = begin[dim];
            let e = end[dim];
            let block_len = block_shape[dim];
            let low_block_inner_offset = b % block_len;
            let low_len = if block_len - low_block_inner_offset < e - b {
                block_len - low_block_inner_offset
            } else {
                e - b
            };
            let low = BlocksIterBorder {
                index: b / block_len,
                inner_offset: low_block_inner_offset,
                length: low_len,
            };
            let high_block_idx = e / block_len;
            let high_block_inner_offset = if low.index != high_block_idx {
                0
            } else {
                low_block_inner_offset
            };
            proof {
                if low.index == high_block_idx {
                    vstd::arithmetic::div_mod::lemma_fundamental_div_mod(b as int, block_len as int);
                    vstd::arithmetic::div_mod::lemma_fundamental_div_mod(e as int, block_len as int);
                }
            }
            let high_block_size = e % block_len - high_block_inner_offset;
            inner_offset.push(low.inner_offset);
            current_block_size.push(low.length);
            borders.push(
                (
                    low,
                    BlocksIterBorder {
                        index: high_block_idx,
                        inner_offset: high_block_inner_offset,
                        length: high_block_size,
                    },
                ),
            );
            dim += 1;
        }
        let r = NdIterExtBlockOffsetSize {
            block_shape,
            borders,
            inner_offset,
            current_block_size,
            range_begin: Ghost(gb),
            range_end: Ghost(ge),
        };
        proof {
            assert(r.borders_ok());
            assert forall|o: Seq<int>| #[trigger] r.tracks(o, r.first_block()) by {
                let f = r.first_block();
                assert forall|d: int|
                    #![trigger r.offsets()[d]]
                    #![trigger r.sizes()[d]]
                    0 <= d < r.ndim() && r.touched(d, f[d]) implies {
                    &&& r.offsets()[d] == clip_offset(
                        r.range_begin()[d],
                        r.block_shape()[d] as int,
                        f[d],
                    )
                    &&& r.sizes()[d] == clip_len(
                        r.range_begin()[d],
                        r.range_end()[d],
                        r.block_shape()[d] as int,
                        f[d],
                    )
                } by {
                    assert(borders_of(
                        r.borders@[d].0,
                        r.borders@[d].1,
                        gb[d],
                        ge[d],
                        r.block_shape@[d] as int,
                    ));
                    lemma_border_parts(gb[d], ge[d], r.block_shape@[d] as int, f[d]);
                }
            }
        }
        r
    }
}

impl NdIterExtension for NdIterExtBlockOffsetSize {
    type Item = (Vec<u64>, Vec<u64>);

    open spec fn tracks(&self, origin: Seq<int>, index: Seq<int>) -> bool {
        self.borders_ok() && self.describes(index)
    }

    open spec fn follows_axis(&self, dim: int) -> bool {
        0 <= dim < self.ndim() && self.lengths_ok()
    }

    open spec fn accepts_ndim(&self, ndim: int) -> bool {
        self.ndim() == ndim && self.lengths_ok()
    }

    open spec fn yields(&self, item: (Vec<u64>, Vec<u64>)) -> bool {
        item.0@ == self.offsets() && item.1@ == self.sizes()
    }

    fn on_increase(&mut self, dim: usize, after: u64, diff: u64) {
        self.move_to(dim, after);
    }

    fn on_decrease(&mut self, dim: usize, after: u64, diff: u64) {
        self.move_to(dim, after);
    }

    fn value(&self) -> (r: (Vec<u64>, Vec<u64>)) {
        (self.inner_offset.clone(), self.current_block_size.clone())
    }

    fn check_ndim(&self, ndim: usize) -> (r: bool) {
        self.block_shape.len() == ndim && self.borders.len() == ndim && self.inner_offset.len()
            == ndim && self.current_block_size.len() == ndim
    }
}

impl NdIterExtBlockOffsetSize {
    /// Moves axis `dim` to block `after`.
    fn move_to(&mut self, dim: usize, after: u64)
        requires
            dim < old(self).ndim(),
            old(self).lengths_ok(),
        ensures
            final(self).lengths_ok(),
            final(self).block_shape() == old(self).block_shape(),
            forall|o: Seq<int>, i: Seq<int>|
                #![trigger old(self).tracks(o, i)]
                old(self).tracks(o, i) && 0 <= dim < i.len() ==> final(self).tracks(
                    o,
                    i.update(dim as int, after as int),
                ),
    {
        let (offset, size) = self.block_part(dim, after);
        self.inner_offset.set(dim, offset);
        self.current_block_size.set(dim, size);
        proof {
            assert forall|o: Seq<int>, i: Seq<int>|
                #![trigger old(self).tracks(o, i)]
                old(self).tracks(o, i) && 0 <= dim < i.len() implies self.tracks(
                    o,
                    i.update(dim as int, after as int),
                ) by {
                let j = i.update(dim as int, after as int);
                Self::lemma_borders_kept(old(self), self);
                assert forall|d: int|
                    #![trigger self.offsets()[d]]
                    #![trigger self.sizes()[d]]
                    0 <= d < self.ndim() && self.touched(d, j[d]) implies {
                    &&& self.offsets()[d] == clip_offset(
                        self.range_begin()[d],
                        self.block_shape()[d] as int,
                        j[d],
                    )
                    &&& self.sizes()[d] == clip_len(
                        self.range_begin()[d],
                        self.range_end()[d],
                        self.block_shape()[d] as int,
                        j[d],
                    )
                } by {
                    if d != dim {
                        assert(old(self).offsets()[d] == self.offsets()[d]);
                        assert(old(self).sizes()[d] == self.sizes()[d]);
                    }
                }
            }
        }
    }
}

impl<E> NdIterBuilder<E> {
    /// Appends an extension tracking, per dimension, the offset and number of the items of the
    /// current block that lie in the element-space range `[begin, end)` split into blocks of
    /// `block_shape`.
    ///
    /// The builder's range is meant to be the block-space range of the blocks touched by
    /// `[begin, end)`.
    pub fn with_block_offset_size_ext(self, begin: &[u64], end: &[u64], block_shape: Vec<u64>) -> (r:
        NdIterBuilder<<E as MergeExtension<NdIterExtBlockOffsetSize>>::Output>) where
        E: MergeExtension<NdIterExtBlockOffsetSize>,
        requires
            begin@.len() == end@.len(),
            begin@.len() == block_shape@.len(),
            forall|d: int| 0 <= d < begin@.len() ==> #[trigger] begin@[d] <= end@[d],
            forall|d: int| 0 <= d < block_shape@.len() ==> #[trigger] block_shape@[d] > 0,
        ensures
            r.begin() == self.begin(),
            r.end() == self.end(),
            exists|x: NdIterExtBlockOffsetSize|
                #![trigger self.ext().merged(x)]
                r.ext() == self.ext().merged(x) && x.block_shape() == block_shape@
                    && x.range_begin() == Seq::new(begin@.len(), |d: int| begin@[d] as int)
                    && x.range_end() == Seq::new(end@.len(), |d: int| end@[d] as int)
                    && x.lengths_ok() && (forall|
                    o: Seq<int>,
                | #[trigger] x.tracks(o, x.first_block())),
    {
        let ext = NdIterExtBlockOffsetSize::new(begin, end, block_shape);
        self.with_ext(ext)
    }
}

} // verus!

use vstd::prelude::*;
use crate::util::iter::nd::{in_box, lemma_ravel_bounds, lemma_ravel_one_to_one, ravel, volume};
use crate::util::layout::{dot, offsets, seq_prod, seq_sum, terms, walks_same, within};
use crate::util::nd_iter_unordered::{is_run, outer_extent, usize_ints, NdIterUnordered};

verus! {

/// The byte offset of element `u` under byte `strides`.
pub open spec fn element_offset(strides: Seq<usize>, u: Seq<int>) -> int {
    dot(u, usize_ints(strides))
}

/// Byte `b` lies in the `itemsize` bytes of element `u` under byte `strides`.
pub open spec fn in_element(strides: Seq<usize>, itemsize: int, u: Seq<int>, b: int) -> bool {
    element_offset(strides, u) <= b < element_offset(strides, u) + itemsize
}

/// The destination after copying every element of the region `shape` from `src` (at
/// `src_strides`) to `dst` (at `dst_strides`): each byte that lies in an element of the
/// destination region takes the matching byte of that element in the source; every other byte
/// keeps its value.
pub open spec fn copied(
    dst: Seq<u8>,
    src: Seq<u8>,
    shape: Seq<usize>,
    src_strides: Seq<usize>,
    dst_strides: Seq<usize>,
    itemsize: int,
) -> Seq<u8> {
    Seq::new(
        dst.len(),
        |b: int|
            if exists|u: Seq<int>|
                within(usize_ints(shape), u) && #[trigger] in_element(dst_strides, itemsize, u, b) {
                let u = choose|u: Seq<int>|
                    within(usize_ints(shape), u) && #[trigger] in_element(dst_strides, itemsize, u, b);
                src[element_offset(src_strides, u) + (b - element_offset(dst_strides, u))]
            } else {
                dst[b]
            },
    )
}

/// Every element of the region lies within `len` bytes under `strides`.
pub open spec fn region_fits(shape: Seq<usize>, strides: Seq<usize>, itemsize: int, len: int) -> bool {
    forall|u: Seq<int>|
        #[trigger] within(usize_ints(shape), u) ==> element_offset(strides, u) + itemsize <= len
}

/// No two elements of the region share a byte under `strides`.
pub open spec fn region_disjoint(shape: Seq<usize>, strides: Seq<usize>, itemsize: int) -> bool {
    forall|u: Seq<int>, v: Seq<int>|
        #![trigger within(usize_ints(shape), u), within(usize_ints(shape), v)]
        within(usize_ints(shape), u) && within(usize_ints(shape), v) && u != v ==> element_offset(
            strides,
            u,
        ) + itemsize <= element_offset(strides, v) || element_offset(strides, v) + itemsize
            <= element_offset(strides, u)
}

/// The destination after copying the elements of the region that `done` marks: each byte that
/// lies in such an element of the destination takes the matching source byte; every other byte
/// keeps its value.
pub open spec fn copied_where(
    dst: Seq<u8>,
    src: Seq<u8>,
    shape: Seq<usize>,
    src_strides: Seq<usize>,
    dst_strides: Seq<usize>,
    itemsize: int,
    done: spec_fn(Seq<int>) -> bool,
) -> Seq<u8> {
    Seq::new(
        dst.len(),
        |b: int|
            if exists|u: Seq<int>|
                within(usize_ints(shape), u) && done(u) && #[trigger] in_element(
                    dst_strides,
                    itemsize,
                    u,
                    b,
                ) {
                let u = choose|u: Seq<int>|
                    within(usize_ints(shape), u) && done(u) && #[trigger] in_element(
                        dst_strides,
                        itemsize,
                        u,
                        b,
                    );
                src[element_offset(src_strides, u) + (b - element_offset(dst_strides, u))]
            } else {
                dst[b]
            },
    )
}

/// Copying one more element `u0` into a destination that holds the elements `done1` gives the
/// destination that holds the elements `done2 = done1 + {u0}`.
proof fn lemma_copy_one_more(
    old_dst: Seq<u8>,
    src: Seq<u8>,
    shape: Seq<usize>,
    src_strides: Seq<usize>,
    dst_strides: Seq<usize>,
    itemsize: int,
    done1: spec_fn(Seq<int>) -> bool,
    done2: spec_fn(Seq<int>) -> bool,
    u0: Seq<int>,
    next: Seq<u8>,
)
    requires
        within(usize_ints(shape), u0),
        region_disjoint(shape, dst_strides, itemsize),
        forall|u: Seq<int>| #[trigger] done2(u) == (done1(u) || u == u0),
        next.len() == old_dst.len(),
        forall|b: int|
            0 <= b < next.len() ==> #[trigger] next[b] == if in_element(dst_strides, itemsize, u0, b) {
                src[element_offset(src_strides, u0) + (b - element_offset(dst_strides, u0))]
            } else {
                copied_where(old_dst, src, shape, src_strides, dst_strides, itemsize, done1)[b]
            },
    ensures
        next == copied_where(old_dst, src, shape, src_strides, dst_strides, itemsize, done2),
{
    let sh = usize_ints(shape);
    let c2 = copied_where(old_dst, src, shape, src_strides, dst_strides, itemsize, done2);
    let c1 = copied_where(old_dst, src, shape, src_strides, dst_strides, itemsize, done1);
    assert forall|b: int| 0 <= b < next.len() implies next[b] == c2[b] by {
        if in_element(dst_strides, itemsize, u0, b) {
            assert(within(sh, u0) && done2(u0) && in_element(dst_strides, itemsize, u0, b));
            let u = choose|u: Seq<int>|
                within(sh, u) && done2(u) && #[trigger] in_element(dst_strides, itemsize, u, b);
            if u != u0 {
                assert(within(sh, u) && within(sh, u0));
            }
            assert(u == u0);
        } else {
            if exists|u: Seq<int>|
                within(sh, u) && done2(u) && #[trigger] in_element(dst_strides, itemsize, u, b) {
                let u = choose|u: Seq<int>|
                    within(sh, u) && done2(u) && #[trigger] in_element(dst_strides, itemsize, u, b);
                assert(u != u0);
                assert(done1(u));
                assert(exists|u: Seq<int>|
                    within(sh, u) && done1(u) && #[trigger] in_element(dst_strides, itemsize, u, b));
                let u1 = choose|u: Seq<int>|
                    within(sh, u) && done1(u) && #[trigger] in_element(dst_strides, itemsize, u, b);
                if u1 != u {
                    assert(within(sh, u) && within(sh, u1));
                }
                assert(u1 == u);
            } else {
                assert forall|u: Seq<int>|
                    within(sh, u) && done1(u) implies !#[trigger] in_element(
                        dst_strides,
                        itemsize,
                        u,
                        b,
                    ) by {
                    assert(done2(u));
                }
            }
        }
    }
    assert(next =~= c2);
}

/// The offset of `v` extended by one last index `k`.
proof fn lemma_dot_push(v: Seq<int>, k: int, s: Seq<int>)
    requires
        s.len() == v.len() + 1,
    ensures
        dot(v.push(k), s) == dot(v, s.take(v.len() as int)) + k * s.last(),
{
    let t = terms(v.push(k), s);
    assert(t.drop_last() =~= terms(v, s.take(v.len() as int)));
    assert(t.last() == k * s.last());
}

/// An offset with nonnegative indices and strides is nonnegative.
pub(crate) proof fn lemma_dot_nonneg(v: Seq<int>, s: Seq<int>)
    requires
        v.len() <= s.len(),
        forall|d: int| 0 <= d < v.len() ==> #[trigger] v[d] >= 0,
        forall|d: int| 0 <= d < s.len() ==> #[trigger] s[d] >= 0,
    ensures
        dot(v, s) >= 0,
    decreases v.len(),
{
    if v.len() > 0 {
        let t = terms(v, s);
        lemma_dot_nonneg(v.drop_last(), s);
        assert(t.drop_last() =~= terms(v.drop_last(), s));
        let x = v.last();
        let y = s[v.len() - 1];
        assert(x * y >= 0) by (nonlinear_arith)
            requires
                x >= 0,
                y >= 0,
        ;
    }
}

/// The region elements that a walk has copied once it reached inner position `k` of run `r`:
/// the images of the walk indices before that position.
pub open spec fn walked_before(
    walk_shape: Seq<int>,
    outer: Seq<u64>,
    source: spec_fn(Seq<int>) -> Seq<int>,
    r: int,
    k: int,
    u: Seq<int>,
) -> bool {
    exists|w: Seq<int>|
        within(walk_shape, w) && #[trigger] source(w) == u && (ravel(outer, w.drop_last()) < r || (
        ravel(outer, w.drop_last()) == r && w.last() < k))
}

/// Stepping the walk from inner position `k` to `k + 1` of run `r` adds exactly the image of the
/// walk index at that position.
proof fn lemma_walked_step(
    walk_shape: Seq<int>,
    outer: Seq<u64>,
    source: spec_fn(Seq<int>) -> Seq<int>,
    r: int,
    k: int,
    v: Seq<int>,
)
    requires
        walk_shape.len() >= 1,
        outer.len() == walk_shape.len() - 1,
        forall|d: int| 0 <= d < outer.len() ==> #[trigger] outer[d] as int == walk_shape[d],
        in_box(outer, v),
        ravel(outer, v) == r,
        0 <= k < walk_shape.last(),
    ensures
        within(walk_shape, v.push(k)),
        forall|u: Seq<int>|
            #[trigger] walked_before(walk_shape, outer, source, r, k + 1, u) == (walked_before(
                walk_shape,
                outer,
                source,
                r,
                k,
                u,
            ) || u == source(v.push(k))),
{
    let w0 = v.push(k);
    assert(w0.drop_last() =~= v);
    assert forall|d: int| 0 <= d < w0.len() implies 0 <= #[trigger] w0[d] < walk_shape[d] by {
        if d < v.len() {
            assert(w0[d] == v[d]);
        }
    }
    assert forall|u: Seq<int>|
        #[trigger] walked_before(walk_shape, outer, source, r, k + 1, u) == (walked_before(
            walk_shape,
            outer,
            source,
            r,
            k,
            u,
        ) || u == source(v.push(k))) by {
        if walked_before(walk_shape, outer, source, r, k + 1, u) {
            let w = choose|w: Seq<int>|
                within(walk_shape, w) && #[trigger] source(w) == u && (ravel(outer, w.drop_last()) < r
                    || (ravel(outer, w.drop_last()) == r && w.last() < k + 1));
            if !(ravel(outer, w.drop_last()) < r || (ravel(outer, w.drop_last()) == r && w.last() < k)) {
                let p = w.drop_last();
                assert(in_box(outer, p)) by {
                    assert forall|d: int| 0 <= d < outer.len() implies 0 <= #[trigger] p[d] < outer[d] by {
                        assert(p[d] == w[d]);
                    }
                }
                lemma_ravel_one_to_one(outer, p, v);
                assert(w =~= v.push(k));
            }
        }
        if u == source(v.push(k)) {
            assert(within(walk_shape, w0) && source(w0) == u && ravel(outer, w0.drop_last()) == r
                && w0.last() < k + 1);
        }
    }
}

/// Inner position `len` of run `r`, one past its last element, is inner position 0 of run `r + 1`.
proof fn lemma_walked_next_run(
    walk_shape: Seq<int>,
    outer: Seq<u64>,
    source: spec_fn(Seq<int>) -> Seq<int>,
    r: int,
)
    requires
        walk_shape.len() >= 1,
    ensures
        forall|u: Seq<int>|
            #[trigger] walked_before(walk_shape, outer, source, r + 1, 0, u) == walked_before(
                walk_shape,
                outer,
                source,
                r,
                walk_shape.last(),
                u,
            ),
{
    assert forall|u: Seq<int>|
        #[trigger] walked_before(walk_shape, outer, source, r + 1, 0, u) == walked_before(
            walk_shape,
            outer,
            source,
            r,
            walk_shape.last(),
            u,
        ) by {
        if walked_before(walk_shape, outer, source, r, walk_shape.last(), u) {
            let w = choose|w: Seq<int>|
                within(walk_shape, w) && #[trigger] source(w) == u && (ravel(outer, w.drop_last()) < r
                    || (ravel(outer, w.drop_last()) == r && w.last() < walk_shape.last()));
            assert(ravel(outer, w.drop_last()) < r + 1);
        }
        if walked_before(walk_shape, outer, source, r + 1, 0, u) {
            let w = choose|w: Seq<int>|
                within(walk_shape, w) && #[trigger] source(w) == u && (ravel(outer, w.drop_last()) < r
                    + 1 || (ravel(outer, w.drop_last()) == r + 1 && w.last() < 0));
            assert(w.last() < walk_shape.last()) by {
                assert(0 <= w[w.len() - 1] < walk_shape[w.len() - 1]);
            }
        }
    }
}

/// Once every run is walked, exactly the region's elements are copied.
proof fn lemma_walked_all(
    shape: Seq<int>,
    strides: Seq<Seq<int>>,
    walk_shape: Seq<int>,
    walk_strides: Seq<Seq<int>>,
    outer: Seq<u64>,
    source: spec_fn(Seq<int>) -> Seq<int>,
)
    requires
        walk_shape.len() >= 1,
        outer.len() == walk_shape.len() - 1,
        forall|d: int| 0 <= d < outer.len() ==> #[trigger] outer[d] as int == walk_shape[d],
        walks_same(shape, strides, walk_shape, walk_strides, source),
    ensures
        forall|u: Seq<int>|
            #[trigger] walked_before(walk_shape, outer, source, volume(outer), 0, u) == within(
                shape,
                u,
            ),
{
    assert forall|u: Seq<int>|
        #[trigger] walked_before(walk_shape, outer, source, volume(outer), 0, u) == within(
            shape,
            u,
        ) by {
        if within(shape, u) {
            let w = choose|w: Seq<int>| within(walk_shape, w) && #[trigger] source(w) == u;
            let p = w.drop_last();
            assert(in_box(outer, p)) by {
                assert forall|d: int| 0 <= d < outer.len() implies 0 <= #[trigger] p[d] < outer[d] by {
                    assert(p[d] == w[d]);
                }
            }
            lemma_ravel_bounds(outer, p, 0);
        }
        if walked_before(walk_shape, outer, source, volume(outer), 0, u) {
            let w = choose|w: Seq<int>|
                within(walk_shape, w) && #[trigger] source(w) == u && (ravel(outer, w.drop_last())
                    < volume(outer) || (ravel(outer, w.drop_last()) == volume(outer) && w.last() < 0));
            assert(within(shape, source(w)));
        }
    }
}

/// Copies a rectangular n-d region of elements of a fixed size between two byte buffers with
/// independent byte strides, walking it with an [`NdIterUnordered`] and copying one inner run at
/// each run start.
pub struct NdCopier {
    itemsize: usize,
}

impl NdCopier {
    /// The element size, in bytes.
    pub closed spec fn element_size(&self) -> usize {
        self.itemsize
    }

    /// A copier of elements of `itemsize` bytes.
    pub fn new(itemsize: usize) -> (r: Self)
        ensures
            r.element_size() == itemsize,
    {
        NdCopier { itemsize }
    }

    /// Copies every element of the region `shape` from `src`, laid out at `src_strides`, to
    /// `dst`, laid out at `dst_strides`, as [`copied`] states. Both regions must lie within their
    /// buffers, and the destination's elements must not overlap.
    pub fn copy(
        &self,
        src: &[u8],
        dst: &mut [u8],
        shape: &[usize],
        src_strides: &[usize],
        dst_strides: &[usize],
    )
        requires
            src_strides@.len() == shape@.len(),
            dst_strides@.len() == shape@.len(),
            seq_prod(usize_ints(shape@)) <= usize::MAX,
            region_fits(shape@, src_strides@, self.element_size() as int, src@.len() as int),
            region_fits(shape@, dst_strides@, self.element_size() as int, old(dst)@.len() as int),
            region_disjoint(shape@, dst_strides@, self.element_size() as int),
        ensures
            final(dst)@ == copied(
                old(dst)@,
                src@,
                shape@,
                src_strides@,
                dst_strides@,
                self.element_size() as int,
            ),
    {
        let isz = self.itemsize;
        let dlen = dst.len();
        let slen = src.len();
        let ghost old_dst = dst@;
        let ghost sh = usize_ints(shape@);
        let ghost m = usize::MAX as int + 1;
        let iter = NdIterUnordered::<2>::new(
            shape,
            [dst_strides, src_strides],
            [(isz, 1), (isz, 1)],
        );
        proof {
            iter.lemma_walks_region();
            iter.lemma_walk_views();
        }
        let ghost f = iter.source_index();
        let ghost wsh = iter.walk_shape_of();
        let ghost wst = iter.walk_strides_of();
        let ghost outer = outer_extent(iter.walk_lengths());
        let ghost rst = iter.region_strides();
        proof {
            assert(rst[0] == usize_ints(dst_strides@));
            assert(rst[1] == usize_ints(src_strides@));
            assert(wsh == usize_ints(iter.walk_lengths()));
            assert forall|d: int| 0 <= d < outer.len() implies #[trigger] outer[d] as int == wsh[d] by {}
        }
        let runs = iter.runs();
        let inner = iter.inner_len();
        let istr = iter.inner_strides();
        let nruns = runs.len();
        proof {
            assert forall|u: Seq<int>| !#[trigger] walked_before(wsh, outer, f, 0, 0, u) by {
                if walked_before(wsh, outer, f, 0, 0, u) {
                    let w = choose|w: Seq<int>|
                        within(wsh, w) && #[trigger] f(w) == u && (ravel(outer, w.drop_last()) < 0 || (
                        ravel(outer, w.drop_last()) == 0 && w.last() < 0));
                    let p = w.drop_last();
                    assert(in_box(outer, p)) by {
                        assert forall|d: int| 0 <= d < outer.len() implies 0 <= #[trigger] p[d]
                            < outer[d] by {
                            assert(p[d] == w[d]);
                        }
                    }
                    lemma_ravel_bounds(outer, p, 0);
                    assert(0 <= w[w.len() - 1]);
                }
            }
            assert(copied_where(
                old_dst,
                src@,
                shape@,
                src_strides@,
                dst_strides@,
                isz as int,
                |u: Seq<int>| walked_before(wsh, outer, f, 0, 0, u),
            ) =~= old_dst);
        }
        let mut r: usize = 0;
        while r < nruns
            invariant
                sh == usize_ints(shape@),
                m == usize::MAX as int + 1,
                isz == self.itemsize,
                dlen == old_dst.len(),
                slen == src@.len(),
                src_strides@.len() == shape@.len(),
                dst_strides@.len() == shape@.len(),
                region_fits(shape@, src_strides@, isz as int, src@.len() as int),
                region_fits(shape@, dst_strides@, isz as int, old_dst.len() as int),
                region_disjoint(shape@, dst_strides@, isz as int),
                f == iter.source_index(),
                wsh == iter.walk_shape_of(),
                wst == iter.walk_strides_of(),
                rst == iter.region_strides(),
                outer == outer_extent(iter.walk_lengths()),
                wsh == usize_ints(iter.walk_lengths()),
                wst == Seq::new(
                    iter.walk_stride_rows().len(),
                    |o: int| usize_ints(iter.walk_stride_rows()[o]@),
                ),
                walks_same(sh, rst, wsh, wst, f),
                wsh.len() >= 1,
                wst.len() == 2,
                forall|o: int| 0 <= o < wst.len() ==> #[trigger] wst[o].len() == wsh.len(),
                rst[0] == usize_ints(dst_strides@),
                rst[1] == usize_ints(src_strides@),
                outer.len() == wsh.len() - 1,
                forall|d: int| 0 <= d < outer.len() ==> #[trigger] outer[d] as int == wsh[d],
                forall|j: int|
                    0 <= j < runs@.len() ==> #[trigger] is_run(
                        iter.walk_lengths(),
                        iter.walk_stride_rows(),
                        j,
                        runs@[j]@,
                    ),
                istr@.len() == 2,
                istr@[0] == wst[0].last(),
                istr@[1] == wst[1].last(),
                inner == wsh.last(),
                r <= nruns,
                nruns == runs@.len(),
                nruns == volume(outer),
                dst@.len() == old_dst.len(),
                dst@ == copied_where(
                    old_dst,
                    src@,
                    shape@,
                    src_strides@,
                    dst_strides@,
                    isz as int,
                    |u: Seq<int>| walked_before(wsh, outer, f, r as int, 0, u),
                ),
            decreases nruns - r,
        {
            let run = &runs[r];
            proof {
                assert(is_run(iter.walk_lengths(), iter.walk_stride_rows(), r as int, run@));
            }
            let ghost v = choose|v: Seq<int>|
                #![trigger ravel(outer_extent(iter.walk_lengths()), v)]
                in_box(outer_extent(iter.walk_lengths()), v) && ravel(
                    outer_extent(iter.walk_lengths()),
                    v,
                ) == r as int && run@.len() == iter.walk_stride_rows().len() && forall|o: int|
                    0 <= o < iter.walk_stride_rows().len() ==> run@[o] == dot(
                        v,
                        usize_ints(iter.walk_stride_rows()[o]@).take(iter.walk_lengths().len() - 1),
                    ) % (usize::MAX as int + 1);
            proof {
                assert(run@.len() == 2);
                assert(wst[0].take(v.len() as int) == usize_ints(iter.walk_stride_rows()[0]@).take(
                    iter.walk_lengths().len() - 1,
                ));
                assert(wst[1].take(v.len() as int) == usize_ints(iter.walk_stride_rows()[1]@).take(
                    iter.walk_lengths().len() - 1,
                ));
            }
            let base_dst = run[0];
            let base_src = run[1];
            let mut k: usize = 0;
            while k < inner
                invariant
                    sh == usize_ints(shape@),
                    m == usize::MAX as int + 1,
                    isz == self.itemsize,
                    dlen == old_dst.len(),
                    slen == src@.len(),
                dlen == old_dst.len(),
                slen == src@.len(),
                    src_strides@.len() == shape@.len(),
                    dst_strides@.len() == shape@.len(),
                    region_fits(shape@, src_strides@, isz as int, src@.len() as int),
                    region_fits(shape@, dst_strides@, isz as int, old_dst.len() as int),
                    region_disjoint(shape@, dst_strides@, isz as int),
                    f == iter.source_index(),
                    wsh == iter.walk_shape_of(),
                    wst == iter.walk_strides_of(),
                    rst == iter.region_strides(),
                    outer == outer_extent(iter.walk_lengths()),
                    wsh == usize_ints(iter.walk_lengths()),
                    wst == Seq::new(
                        iter.walk_stride_rows().len(),
                        |o: int| usize_ints(iter.walk_stride_rows()[o]@),
                    ),
                    walks_same(sh, rst, wsh, wst, f),
                    wsh.len() >= 1,
                    wst.len() == 2,
                    forall|o: int| 0 <= o < wst.len() ==> #[trigger] wst[o].len() == wsh.len(),
                    rst[0] == usize_ints(dst_strides@),
                    rst[1] == usize_ints(src_strides@),
                    outer.len() == wsh.len() - 1,
                    forall|d: int| 0 <= d < outer.len() ==> #[trigger] outer[d] as int == wsh[d],
                    forall|j: int|
                        0 <= j < runs@.len() ==> #[trigger] is_run(
                            iter.walk_lengths(),
                            iter.walk_stride_rows(),
                            j,
                            runs@[j]@,
                        ),
                    istr@.len() == 2,
                    istr@[0] == wst[0].last(),
                    istr@[1] == wst[1].last(),
                    inner == wsh.last(),
                    run@ == runs@[r as int]@,
                    in_box(outer, v),
                    ravel(outer, v) == r as int,
                    base_dst as int == dot(v, wst[0].take(v.len() as int)) % m,
                    base_src as int == dot(v, wst[1].take(v.len() as int)) % m,
                    k <= inner,
                    r < nruns,
                    nruns == runs@.len(),
                    nruns == volume(outer),
                    dst@.len() == old_dst.len(),
                    dst@ == copied_where(
                        old_dst,
                        src@,
                        shape@,
                        src_strides@,
                        dst_strides@,
                        isz as int,
                        |u: Seq<int>| walked_before(wsh, outer, f, r as int, k as int, u),
                    ),
                decreases inner - k,
            {
                let ghost w0 = v.push(k as int);
                let ghost u0 = f(w0);
                proof {
                    lemma_walked_step(wsh, outer, f, r as int, k as int, v);
                    assert(within(sh, u0));
                    assert(offsets(rst, u0) == offsets(wst, w0));
                    assert(offsets(rst, u0)[0] == offsets(wst, w0)[0]);
                    assert(offsets(rst, u0)[1] == offsets(wst, w0)[1]);
                    lemma_dot_push(v, k as int, wst[0]);
                    lemma_dot_push(v, k as int, wst[1]);
                    assert(wst[0] == usize_ints(iter.walk_stride_rows()[0]@));
                    assert(wst[1] == usize_ints(iter.walk_stride_rows()[1]@));
                    assert(istr@[0] == wst[0].last() && istr@[1] == wst[1].last());
                    assert forall|d: int| 0 <= d < v.len() implies #[trigger] v[d] >= 0 by {
                        assert(0 <= v[d] < outer[d]);
                    }
                    lemma_dot_nonneg(v, wst[0].take(v.len() as int));
                    lemma_dot_nonneg(v, wst[1].take(v.len() as int));
                    assert(k as int * istr@[0] >= 0 && k as int * istr@[1] >= 0) by (nonlinear_arith)
                        requires
                            k >= 0,
                    ;
                    assert(element_offset(dst_strides@, u0) + isz <= old_dst.len());
                    assert(element_offset(src_strides@, u0) + isz <= src@.len());
                    assert(element_offset(dst_strides@, u0) == dot(u0, rst[0]));
                    assert(element_offset(src_strides@, u0) == dot(u0, rst[1]));
                    assert(dot(w0, wst[0]) == dot(v, wst[0].take(v.len() as int)) + k as int * istr@[0]);
                    assert(dot(w0, wst[1]) == dot(v, wst[1].take(v.len() as int)) + k as int * istr@[1]);
                    assert(dot(v, wst[0].take(v.len() as int)) < m);
                    assert(dot(v, wst[1].take(v.len() as int)) < m);
                    vstd::arithmetic::div_mod::lemma_small_mod(
                        dot(v, wst[0].take(v.len() as int)) as nat,
                        m as nat,
                    );
                    vstd::arithmetic::div_mod::lemma_small_mod(
                        dot(v, wst[1].take(v.len() as int)) as nat,
                        m as nat,
                    );
                }
                let doff = base_dst + k * istr[0];
                let soff = base_src + k * istr[1];
                assert(doff == element_offset(dst_strides@, u0));
                assert(soff == element_offset(src_strides@, u0));
                let ghost prev = dst@;
                let mut j: usize = 0;
                while j < isz
                    invariant
                        j <= isz,
                        prev.len() == dlen,
                        src@.len() == slen,
                        dst@.len() == prev.len(),
                        doff + isz <= prev.len(),
                        soff + isz <= src@.len(),
                        forall|b: int|
                            0 <= b < prev.len() ==> #[trigger] dst@[b] == if doff <= b < doff + j {
                                src@[soff + (b - doff)]
                            } else {
                                prev[b]
                            },
                    decreases isz - j,
                {
                    dst[doff + j] = src[soff + j];
                    j += 1;
                }
                proof {
                    lemma_copy_one_more(
                        old_dst,
                        src@,
                        shape@,
                        src_strides@,
                        dst_strides@,
                        isz as int,
                        |u: Seq<int>| walked_before(wsh, outer, f, r as int, k as int, u),
                        |u: Seq<int>| walked_before(wsh, outer, f, r as int, k as int + 1, u),
                        u0,
                        dst@,
                    );
                }
                k += 1;
            }
            proof {
                lemma_walked_next_run(wsh, outer, f, r as int);
                assert(copied_where(
                    old_dst,
                    src@,
                    shape@,
                    src_strides@,
                    dst_strides@,
                    isz as int,
                    |u: Seq<int>| walked_before(wsh, outer, f, r as int, inner as int, u),
                ) =~= copied_where(
                    old_dst,
                    src@,
                    shape@,
                    src_strides@,
                    dst_strides@,
                    isz as int,
                    |u: Seq<int>| walked_before(wsh, outer, f, r as int + 1, 0, u),
                ));
            }
            r += 1;
        }
        proof {
            lemma_walked_all(sh, rst, wsh, wst, outer, f);
            assert(dst@ =~= copied(old_dst, src@, shape@, src_strides@, dst_strides@, isz as int));
        }
    }
}

} // verus!

use vstd::prelude::*;
use crate::util::idx::Idx;
use crate::util::iter::nd::{displacement, MergeExtension, NdIterBuilder, NdIterExtension};
use crate::util::{default_logical_strides_slice, idx_ints, linear_offset, lemma_linear_update, lemma_mod_step, packed_strides};

verus! {

/// An nd-iterator extension that tracks an offset into a strided array.
///
/// On each change of axis `dim` by `diff` positions the offset moves by `diff * strides[dim]`,
/// so at index `i` of a walk that started at `origin` with offset `initial_offset` it is
/// `initial_offset + sum_d (i[d] - origin[d]) * strides[d]`, computed modulo `S::modulus()`.
pub struct NdIterExtStridesOffset<S> {
    strides: Vec<S>,
    offset: S,
    initial: Ghost<int>,
}

impl<S: Idx> NdIterExtStridesOffset<S> {
    /// The strides, one per axis.
    pub closed spec fn strides(&self) -> Seq<S> {
        self.strides@
    }

    /// The offset at the first index of the walk.
    pub closed spec fn initial_offset(&self) -> int {
        self.initial@
    }

    /// The current offset.
    pub closed spec fn current(&self) -> S {
        self.offset
    }

    pub fn new(strides: Vec<S>, initial_offset: S) -> (r: Self)
        ensures
            r.strides() == strides@,
            r.initial_offset() == initial_offset.as_int(),
            r.current() == initial_offset,
    {
        NdIterExtStridesOffset { strides, offset: initial_offset, initial: Ghost(initial_offset.as_int()) }
    }
}

impl<S: Idx> NdIterExtension for NdIterExtStridesOffset<S> {
    type Item = S;

    open spec fn tracks(&self, origin: Seq<int>, index: Seq<int>) -> bool {
        &&& index.len() == self.strides().len()
        &&& origin.len() == index.len()
        &&& self.current().as_int() == (self.initial_offset() + linear_offset(
            idx_ints(self.strides()),
            displacement(origin, index),
        )) % S::modulus()
    }

    open spec fn follows_axis(&self, dim: int) -> bool {
        0 <= dim < self.strides().len()
    }

    open spec fn accepts_ndim(&self, ndim: int) -> bool {
        self.strides().len() == ndim
    }

    open spec fn yields(&self, item: S) -> bool {
        item == self.current()
    }

    fn on_increase(&mut self, dim: usize, after: u64, diff: u64) {
        let step = S::from_u64(diff).mul_wrapping(self.strides[dim]);
        let ghost prev = self.offset;
        self.offset = self.offset.add_wrapping(step);
        proof {
            let m = S::modulus();
            let s = self.strides@[dim as int].as_int();
            self.strides@[dim as int].lemma_range();
            assert forall|o: Seq<int>, i: Seq<int>|
                #![trigger old(self).tracks(o, i)]
                old(self).tracks(o, i) && 0 <= dim < i.len() && after == i[dim as int] + diff
                    implies self.tracks(o, i.update(dim as int, after as int)) by {
                let disp = displacement(o, i);
                let st = idx_ints(self.strides@);
                assert(displacement(o, i.update(dim as int, after as int)) =~= disp.update(
                    dim as int,
                    disp[dim as int] + diff,
                ));
                lemma_linear_update(st, disp, dim as int, disp[dim as int] + diff, 0);
                lemma_mod_step(self.initial@ + linear_offset(st, disp), diff as int, s, m);
                vstd::arithmetic::div_mod::lemma_mod_twice(
                    self.initial@ + linear_offset(st, disp),
                    m,
                );
            }
        }
    }

    fn on_decrease(&mut self, dim: usize, after: u64, diff: u64) {
        let step = S::from_u64(diff).mul_wrapping(self.strides[dim]);
        self.offset = self.offset.sub_wrapping(step);
        proof {
            let m = S::modulus();
            let s = self.strides@[dim as int].as_int();
            self.strides@[dim as int].lemma_range();
            assert forall|o: Seq<int>, i: Seq<int>|
                #![trigger old(self).tracks(o, i)]
                old(self).tracks(o, i) && 0 <= dim < i.len() && after == i[dim as int] - diff
                    implies self.tracks(o, i.update(dim as int, after as int)) by {
                let disp = displacement(o, i);
                let st = idx_ints(self.strides@);
                assert(displacement(o, i.update(dim as int, after as int)) =~= disp.update(
                    dim as int,
                    disp[dim as int] - diff,
                ));
                lemma_linear_update(st, disp, dim as int, disp[dim as int] - diff, 0);
                assert((disp[dim as int] - diff - disp[dim as int]) * s == -(diff * s))
                    by (nonlinear_arith);
                lemma_mod_step(self.initial@ + linear_offset(st, disp), diff as int, s, m);
            }
        }
    }

    fn value(&self) -> (r: S) {
        self.offset
    }

    fn check_ndim(&self, ndim: usize) -> (r: bool)
        ensures
            r == (self.strides().len() == ndim),
    {
        self.strides.len() == ndim
    }
}

/// An extension that tracks the row-major global index, within an array of `shape`, of the index
/// of a walk that starts at `begin`.
pub fn nd_iter_ext_logical_global_index(shape: &[u64], begin: &[u64]) -> (r: NdIterExtStridesOffset<u64>)
    requires
        begin@.len() == shape@.len(),
    ensures
        r.strides().len() == shape@.len(),
        forall|d: int|
            0 <= d < shape@.len() ==> #[trigger] r.strides()[d] as int == packed_strides(
                idx_ints(shape@),
                1,
            )[d] % 0x1_0000_0000_0000_0000,
        r.initial_offset() == linear_offset(idx_ints(r.strides()), idx_ints(begin@))
            % 0x1_0000_0000_0000_0000,
        r.current() as int == r.initial_offset(),
{
    let logical_strides = default_logical_strides_slice(shape);
    let ndim = shape.len();
    let mut initial_offset: u64 = 0;
    let mut dim = ndim;
    let ghost st = idx_ints(logical_strides@);
    let ghost b = idx_ints(begin@);
    while dim > 0
        invariant
            dim <= ndim,
            ndim == shape@.len(),
            ndim == begin@.len(),
            logical_strides@.len() == ndim,
            st == idx_ints(logical_strides@),
            b == idx_ints(begin@),
            initial_offset as int == crate::util::linear_from(st, b, dim as int)
                % 0x1_0000_0000_0000_0000,
        decreases dim,
    {
        dim -= 1;
        let term = begin[dim].mul_wrapping(logical_strides[dim]);
        proof {
            let m: int = 0x1_0000_0000_0000_0000;
            vstd::arithmetic::div_mod::lemma_add_mod_noop(
                b[dim as int] * st[dim as int],
                crate::util::linear_from(st, b, dim as int + 1),
                m,
            );
            vstd::arithmetic::div_mod::lemma_mod_twice(b[dim as int] * st[dim as int], m);
        }
        initial_offset = term.add_wrapping(initial_offset);
        proof {
            let m: int = 0x1_0000_0000_0000_0000;
            vstd::arithmetic::div_mod::lemma_mod_twice(
                crate::util::linear_from(st, b, dim as int + 1),
                m,
            );
        }
    }
    proof {
        assert forall|d: int| 0 <= d < shape@.len() implies #[trigger] logical_strides@[d] as int
            == packed_strides(idx_ints(shape@), 1)[d] % 0x1_0000_0000_0000_0000 by {
            assert(logical_strides@[d].as_int() == packed_strides(idx_ints(shape@), 1)[d]
                % <u64 as Idx>::modulus());
        }
    }
    NdIterExtStridesOffset::new(logical_strides, initial_offset)
}

/// An nd-iterator extension that tracks `N` offsets into `N` strided arrays at once, one walk for
/// all of them; operand `k` moves by `diff * strides[k][dim]` on each change of axis `dim`.
pub struct NdIterExtStridesOffsetMulti<S, const N: usize> {
    strides: [Vec<S>; N],
    offsets: [S; N],
    initial: Ghost<Seq<int>>,
}

/// The per-operand offsets at `index` of a walk that started at `origin`, where operand `k`
/// started at `initial[k]`.
pub open spec fn multi_offsets_at<S: Idx>(
    strides: Seq<Seq<S>>,
    initial: Seq<int>,
    origin: Seq<int>,
    index: Seq<int>,
) -> Seq<int> {
    Seq::new(
        strides.len(),
        |k: int|
            (initial[k] + linear_offset(idx_ints(strides[k]), displacement(origin, index)))
                % S::modulus(),
    )
}

impl<S: Idx, const N: usize> NdIterExtStridesOffsetMulti<S, N> {
    /// The strides of each operand.
    pub closed spec fn strides(&self) -> Seq<Seq<S>> {
        Seq::new(N as nat, |k: int| self.strides@[k]@)
    }

    /// The offset of each operand at the first index of the walk.
    pub closed spec fn initial_offsets(&self) -> Seq<int> {
        self.initial@
    }

    /// The current offset of each operand.
    pub closed spec fn current(&self) -> [S; N] {
        self.offsets
    }

    pub fn new(strides: [Vec<S>; N], initial_offsets: [S; N]) -> (r: Self)
        ensures
            r.strides() == Seq::new(N as nat, |k: int| strides@[k]@),
            r.initial_offsets() == idx_ints(initial_offsets@),
            r.current() == initial_offsets,
    {
        NdIterExtStridesOffsetMulti {
            strides,
            offsets: initial_offsets,
            initial: Ghost(idx_ints(initial_offsets@)),
        }
    }

    /// Moves every offset by `diff * strides[k][dim]`, up when `up`, down otherwise.
    fn step(&mut self, dim: usize, diff: u64, up: bool)
        requires
            forall|k: int| 0 <= k < N ==> dim < #[trigger] old(self).strides@[k]@.len(),
        ensures
            final(self).strides == old(self).strides,
            final(self).initial == old(self).initial,
            forall|k: int|
                0 <= k < N ==> #[trigger] final(self).offsets@[k].as_int() == if up {
                    ((old(self).offsets@[k].as_int() % S::modulus()) + ((diff as int % S::modulus())
                        * old(self).strides@[k]@[dim as int].as_int()) % S::modulus())
                        % S::modulus()
                } else {
                    ((old(self).offsets@[k].as_int() % S::modulus()) - ((diff as int % S::modulus())
                        * old(self).strides@[k]@[dim as int].as_int()) % S::modulus())
                        % S::modulus()
                },
    {
        let d = S::from_u64(diff);
        let mut offsets = self.offsets;
        let mut k: usize = 0;
        while k < N
            invariant
                k <= N,
                self.strides == old(self).strides,
                self.initial == old(self).initial,
                self.offsets == old(self).offsets,
                d.as_int() == diff as int % S::modulus(),
                forall|j: int| 0 <= j < N ==> dim < #[trigger] self.strides@[j]@.len(),
                forall|j: int| k <= j < N ==> #[trigger] offsets@[j] == self.offsets@[j],
                forall|j: int|
                    0 <= j < k ==> #[trigger] offsets@[j].as_int() == if up {
                        ((self.offsets@[j].as_int() % S::modulus()) + ((diff as int % S::modulus())
                            * self.strides@[j]@[dim as int].as_int()) % S::modulus())
                            % S::modulus()
                    } else {
                        ((self.offsets@[j].as_int() % S::modulus()) - ((diff as int % S::modulus())
                            * self.strides@[j]@[dim as int].as_int()) % S::modulus())
                            % S::modulus()
                    },
            decreases N - k,
        {
            let step = d.mul_wrapping(self.strides[k][dim]);
            let cur = offsets[k];
            proof {
                cur.lemma_range();
                vstd::arithmetic::div_mod::lemma_small_mod(cur.as_int() as nat, S::modulus() as nat);
            }
            if up {
                offsets[k] = cur.add_wrapping(step);
            } else {
                offsets[k] = cur.sub_wrapping(step);
            }
            k += 1;
        }
        self.offsets = offsets;
    }
}

impl<S: Idx, const N: usize> NdIterExtension for NdIterExtStridesOffsetMulti<S, N> {
    type Item = [S; N];

    open spec fn tracks(&self, origin: Seq<int>, index: Seq<int>) -> bool {
        &&& origin.len() == index.len()
        &&& self.initial_offsets().len() == N
        &&& forall|k: int| 0 <= k < N ==> #[trigger] self.strides()[k].len() == index.len()
        &&& idx_ints(self.current()@) == multi_offsets_at(
            self.strides(),
            self.initial_offsets(),
            origin,
            index,
        )
    }

    open spec fn follows_axis(&self, dim: int) -> bool {
        0 <= dim && forall|k: int| 0 <= k < N ==> dim < (#[trigger] self.strides()[k]).len()
    }

    open spec fn accepts_ndim(&self, ndim: int) -> bool {
        forall|k: int| 0 <= k < N ==> #[trigger] self.strides()[k].len() == ndim
    }

    open spec fn yields(&self, item: [S; N]) -> bool {
        item == self.current()
    }

    fn on_increase(&mut self, dim: usize, after: u64, diff: u64) {
        proof {
            assert forall|k: int| 0 <= k < N implies dim < #[trigger] self.strides@[k]@.len() by {
                assert(old(self).strides()[k] == self.strides@[k]@);
            }
        }
        self.step(dim, diff, true);
        proof {
            let m = S::modulus();
            S::lemma_modulus();
            assert(self.strides() =~= old(self).strides());
            assert forall|d: int| #[trigger] self.follows_axis(d) == old(self).follows_axis(d) by {
                if old(self).follows_axis(d) {
                    assert forall|k: int| 0 <= k < N implies d < (#[trigger] self.strides()[k]).len() by {
                        assert(old(self).strides()[k] == self.strides()[k]);
                    }
                }
                if self.follows_axis(d) {
                    assert forall|k: int| 0 <= k < N implies d < (#[trigger] old(self).strides()[k]).len() by {
                        assert(old(self).strides()[k] == self.strides()[k]);
                    }
                }
            }
            assert forall|o: Seq<int>, i: Seq<int>|
                #![trigger old(self).tracks(o, i)]
                old(self).tracks(o, i) && 0 <= dim < i.len() && after == i[dim as int] + diff
                    implies self.tracks(o, i.update(dim as int, after as int)) by {
                let disp = displacement(o, i);
                let ni = i.update(dim as int, after as int);
                assert(displacement(o, ni) =~= disp.update(dim as int, disp[dim as int] + diff));
                assert forall|k: int| 0 <= k < N implies #[trigger] idx_ints(self.offsets@)[k]
                    == multi_offsets_at(self.strides(), self.initial@, o, ni)[k] by {
                    let st = idx_ints(self.strides@[k]@);
                    let s = self.strides@[k]@[dim as int].as_int();
                    assert(old(self).strides()[k] == self.strides@[k]@);
                    assert(idx_ints(old(self).offsets@)[k] == multi_offsets_at(
                        old(self).strides(),
                        self.initial@,
                        o,
                        i,
                    )[k]);
                    lemma_linear_update(st, disp, dim as int, disp[dim as int] + diff, 0);
                    lemma_mod_step(self.initial@[k] + linear_offset(st, disp), diff as int, s, m);
                    vstd::arithmetic::div_mod::lemma_mod_twice(self.initial@[k] + linear_offset(st, disp), m);
                }
                assert(idx_ints(self.offsets@) =~= multi_offsets_at(self.strides(), self.initial@, o, ni));
            }
        }
    }

    fn on_decrease(&mut self, dim: usize, after: u64, diff: u64) {
        proof {
            assert forall|k: int| 0 <= k < N implies dim < #[trigger] self.strides@[k]@.len() by {
                assert(old(self).strides()[k] == self.strides@[k]@);
            }
        }
        self.step(dim, diff, false);
        proof {
            let m = S::modulus();
            S::lemma_modulus();
            assert(self.strides() =~= old(self).strides());
            assert forall|d: int| #[trigger] self.follows_axis(d) == old(self).follows_axis(d) by {
                if old(self).follows_axis(d) {
                    assert forall|k: int| 0 <= k < N implies d < (#[trigger] self.strides()[k]).len() by {
                        assert(old(self).strides()[k] == self.strides()[k]);
                    }
                }
                if self.follows_axis(d) {
                    assert forall|k: int| 0 <= k < N implies d < (#[trigger] old(self).strides()[k]).len() by {
                        assert(old(self).strides()[k] == self.strides()[k]);
                    }
                }
            }
            assert forall|o: Seq<int>, i: Seq<int>|
                #![trigger old(self).tracks(o, i)]
                old(self).tracks(o, i) && 0 <= dim < i.len() && after == i[dim as int] - diff
                    implies self.tracks(o, i.update(dim as int, after as int)) by {
                let disp = displacement(o, i);
                let ni = i.update(dim as int, after as int);
                assert(displacement(o, ni) =~= disp.update(dim as int, disp[dim as int] - diff));
                assert forall|k: int| 0 <= k < N implies #[trigger] idx_ints(self.offsets@)[k]
                    == multi_offsets_at(self.strides(), self.initial@, o, ni)[k] by {
                    let st = idx_ints(self.strides@[k]@);
                    let s = self.strides@[k]@[dim as int].as_int();
                    assert(old(self).strides()[k] == self.strides@[k]@);
                    assert(idx_ints(old(self).offsets@)[k] == multi_offsets_at(
                        old(self).strides(),
                        self.initial@,
                        o,
                        i,
                    )[k]);
                    lemma_linear_update(st, disp, dim as int, disp[dim as int] - diff, 0);
                    assert((disp[dim as int] - diff - disp[dim as int]) * s == -(diff * s))
                        by (nonlinear_arith);
                    lemma_mod_step(self.initial@[k] + linear_offset(st, disp), diff as int, s, m);
                    vstd::arithmetic::div_mod::lemma_mod_twice(self.initial@[k] + linear_offset(st, disp), m);
                }
                assert(idx_ints(self.offsets@) =~= multi_offsets_at(self.strides(), self.initial@, o, ni));
            }
        }
    }

    fn value(&self) -> (r: [S; N]) {
        self.offsets
    }

    fn check_ndim(&self, ndim: usize) -> (r: bool)
        ensures
            r == forall|k: int| 0 <= k < N ==> #[trigger] self.strides()[k].len() == ndim,
    {
        let mut k: usize = 0;
        while k < N
            invariant
                k <= N,
                forall|j: int| 0 <= j < k ==> #[trigger] self.strides()[j].len() == ndim,
            decreases N - k,
        {
            if self.strides[k].len() != ndim {
                proof {
                    assert(self.strides()[k as int] == self.strides@[k as int]@);
                }
                return false;
            }
            proof {
                assert(self.strides()[k as int] == self.strides@[k as int]@);
            }
            k += 1;
        }
        true
    }
}

/// The run-time-length sibling of [`NdIterExtStridesOffsetMulti`], for a number of operands that
/// is only known at run time.
pub struct NdIterExtStridesOffsetMultiDyn<S> {
    strides: Vec<Vec<S>>,
    offsets: Vec<S>,
    initial: Ghost<Seq<int>>,
}

impl<S: Idx> NdIterExtStridesOffsetMultiDyn<S> {
    /// The strides of each operand.
    pub closed spec fn strides(&self) -> Seq<Seq<S>> {
        Seq::new(self.strides@.len(), |k: int| self.strides@[k]@)
    }

    /// The offset of each operand at the first index of the walk.
    pub closed spec fn initial_offsets(&self) -> Seq<int> {
        self.initial@
    }

    /// The current offset of each operand.
    pub closed spec fn current(&self) -> Vec<S> {
        self.offsets
    }

    /// The number of operands.
    pub closed spec fn n_operands(&self) -> nat {
        self.strides@.len()
    }

    pub fn new(strides: Vec<Vec<S>>, initial_offsets: Vec<S>) -> (r: Self)
        requires
            strides.len() == initial_offsets.len(),
        ensures
            r.strides() == Seq::new(strides@.len(), |k: int| strides@[k]@),
            r.initial_offsets() == idx_ints(initial_offsets@),
            r.current()@ == initial_offsets@,
            r.n_operands() == strides@.len(),
    {
        NdIterExtStridesOffsetMultiDyn {
            strides,
            offsets: initial_offsets,
            initial: Ghost(idx_ints(initial_offsets@)),
        }
    }

    /// Moves every offset by `diff * strides[k][dim]`, up when `up`, down otherwise.
    fn step(&mut self, dim: usize, diff: u64, up: bool)
        requires
            forall|k: int| 0 <= k < old(self).strides@.len() ==> dim < #[trigger] old(self).strides@[k]@.len(),
            old(self).strides@.len() == old(self).offsets@.len(),
        ensures
            final(self).offsets@.len() == old(self).offsets@.len(),
            final(self).strides == old(self).strides,
            final(self).initial == old(self).initial,
            forall|k: int|
                0 <= k < old(self).offsets@.len() ==> #[trigger] final(self).offsets@[k].as_int() == if up {
                    ((old(self).offsets@[k].as_int() % S::modulus()) + ((diff as int % S::modulus())
                        * old(self).strides@[k]@[dim as int].as_int()) % S::modulus())
                        % S::modulus()
                } else {
                    ((old(self).offsets@[k].as_int() % S::modulus()) - ((diff as int % S::modulus())
                        * old(self).strides@[k]@[dim as int].as_int()) % S::modulus())
                        % S::modulus()
                },
    {
        let d = S::from_u64(diff);
        let n = self.offsets.len();
        let mut k: usize = 0;
        while k < n
            invariant
                k <= n,
                n == self.offsets@.len(),
                n == self.strides@.len(),
                self.strides == old(self).strides,
                self.initial == old(self).initial,
                d.as_int() == diff as int % S::modulus(),
                forall|j: int| 0 <= j < n ==> dim < #[trigger] self.strides@[j]@.len(),
                forall|j: int| k <= j < n ==> #[trigger] self.offsets@[j] == old(self).offsets@[j],
                forall|j: int|
                    0 <= j < k ==> #[trigger] self.offsets@[j].as_int() == if up {
                        ((old(self).offsets@[j].as_int() % S::modulus()) + ((diff as int % S::modulus())
                            * self.strides@[j]@[dim as int].as_int()) % S::modulus())
                            % S::modulus()
                    } else {
                        ((old(self).offsets@[j].as_int() % S::modulus()) - ((diff as int % S::modulus())
                            * self.strides@[j]@[dim as int].as_int()) % S::modulus())
                            % S::modulus()
                    },
            decreases n - k,
        {
            let step = d.mul_wrapping(self.strides[k][dim]);
            let cur = self.offsets[k];
            proof {
                cur.lemma_range();
                vstd::arithmetic::div_mod::lemma_small_mod(cur.as_int() as nat, S::modulus() as nat);
            }
            if up {
                self.offsets.set(k, cur.add_wrapping(step));
            } else {
                self.offsets.set(k, cur.sub_wrapping(step));
            }
            k += 1;
        }
    }
}

impl<S: Idx> NdIterExtension for NdIterExtStridesOffsetMultiDyn<S> {
    type Item = Vec<S>;

    open spec fn tracks(&self, origin: Seq<int>, index: Seq<int>) -> bool {
        &&& origin.len() == index.len()
        &&& self.initial_offsets().len() == self.n_operands()
        &&& self.current()@.len() == self.n_operands()
        &&& forall|k: int| 0 <= k < self.n_operands() ==> #[trigger] self.strides()[k].len() == index.len()
        &&& idx_ints(self.current()@) == multi_offsets_at(
            self.strides(),
            self.initial_offsets(),
            origin,
            index,
        )
    }

    open spec fn follows_axis(&self, dim: int) -> bool {
        0 <= dim && self.current()@.len() == self.n_operands() && forall|k: int| 0 <= k < self.n_operands() ==> dim < (#[trigger] self.strides()[k]).len()
    }

    open spec fn accepts_ndim(&self, ndim: int) -> bool {
        self.current()@.len() == self.n_operands() && forall|k: int|
            0 <= k < self.n_operands() ==> #[trigger] self.strides()[k].len() == ndim
    }

    open spec fn yields(&self, item: Vec<S>) -> bool {
        item@ == self.current()@
    }

    fn on_increase(&mut self, dim: usize, after: u64, diff: u64) {
        proof {
            assert forall|k: int| 0 <= k < self.n_operands() implies dim < #[trigger] self.strides@[k]@.len() by {
                assert(old(self).strides()[k] == self.strides@[k]@);
            }
        }
        self.step(dim, diff, true);
        proof {
            let m = S::modulus();
            S::lemma_modulus();
            assert(self.strides() =~= old(self).strides());
            assert forall|d: int| #[trigger] self.follows_axis(d) == old(self).follows_axis(d) by {
                if old(self).follows_axis(d) {
                    assert forall|k: int| 0 <= k < self.n_operands() implies d < (#[trigger] self.strides()[k]).len() by {
                        assert(old(self).strides()[k] == self.strides()[k]);
                    }
                }
                if self.follows_axis(d) {
                    assert forall|k: int| 0 <= k < self.n_operands() implies d < (#[trigger] old(self).strides()[k]).len() by {
                        assert(old(self).strides()[k] == self.strides()[k]);
                    }
                }
            }
            assert forall|o: Seq<int>, i: Seq<int>|
                #![trigger old(self).tracks(o, i)]
                old(self).tracks(o, i) && 0 <= dim < i.len() && after == i[dim as int] + diff
                    implies self.tracks(o, i.update(dim as int, after as int)) by {
                let disp = displacement(o, i);
                let ni = i.update(dim as int, after as int);
                assert(displacement(o, ni) =~= disp.update(dim as int, disp[dim as int] + diff));
                assert forall|k: int| 0 <= k < self.n_operands() implies #[trigger] idx_ints(self.offsets@)[k]
                    == multi_offsets_at(self.strides(), self.initial@, o, ni)[k] by {
                    let st = idx_ints(self.strides@[k]@);
                    let s = self.strides@[k]@[dim as int].as_int();
                    assert(old(self).strides()[k] == self.strides@[k]@);
                    assert(idx_ints(old(self).offsets@)[k] == multi_offsets_at(
                        old(self).strides(),
                        self.initial@,
                        o,
                        i,
                    )[k]);
                    lemma_linear_update(st, disp, dim as int, disp[dim as int] + diff, 0);
                    lemma_mod_step(self.initial@[k] + linear_offset(st, disp), diff as int, s, m);
                    vstd::arithmetic::div_mod::lemma_mod_twice(self.initial@[k] + linear_offset(st, disp), m);
                }
                assert(idx_ints(self.offsets@) =~= multi_offsets_at(self.strides(), self.initial@, o, ni));
            }
        }
    }

    fn on_decrease(&mut self, dim: usize, after: u64, diff: u64) {
        proof {
            assert forall|k: int| 0 <= k < self.n_operands() implies dim < #[trigger] self.strides@[k]@.len() by {
                assert(old(self).strides()[k] == self.strides@[k]@);
            }
        }
        self.step(dim, diff, false);
        proof {
            let m = S::modulus();
            S::lemma_modulus();
            assert(self.strides() =~= old(self).strides());
            assert forall|d: int| #[trigger] self.follows_axis(d) == old(self).follows_axis(d) by {
                if old(self).follows_axis(d) {
                    assert forall|k: int| 0 <= k < self.n_operands() implies d < (#[trigger] self.strides()[k]).len() by {
                        assert(old(self).strides()[k] == self.strides()[k]);
                    }
                }
                if self.follows_axis(d) {
                    assert forall|k: int| 0 <= k < self.n_operands() implies d < (#[trigger] old(self).strides()[k]).len() by {
                        assert(old(self).strides()[k] == self.strides()[k]);
                    }
                }
            }
            assert forall|o: Seq<int>, i: Seq<int>|
                #![trigger old(self).tracks(o, i)]
                old(self).tracks(o, i) && 0 <= dim < i.len() && after == i[dim as int] - diff
                    implies self.tracks(o, i.update(dim as int, after as int)) by {
                let disp = displacement(o, i);
                let ni = i.update(dim as int, after as int);
                assert(displacement(o, ni) =~= disp.update(dim as int, disp[dim as int] - diff));
                assert forall|k: int| 0 <= k < self.n_operands() implies #[trigger] idx_ints(self.offsets@)[k]
                    == multi_offsets_at(self.strides(), self.initial@, o, ni)[k] by {
                    let st = idx_ints(self.strides@[k]@);
                    let s = self.strides@[k]@[dim as int].as_int();
                    assert(old(self).strides()[k] == self.strides@[k]@);
                    assert(idx_ints(old(self).offsets@)[k] == multi_offsets_at(
                        old(self).strides(),
                        self.initial@,
                        o,
                        i,
                    )[k]);
                    lemma_linear_update(st, disp, dim as int, disp[dim as int] - diff, 0);
                    assert((disp[dim as int] - diff - disp[dim as int]) * s == -(diff * s))
                        by (nonlinear_arith);
                    lemma_mod_step(self.initial@[k] + linear_offset(st, disp), diff as int, s, m);
                    vstd::arithmetic::div_mod::lemma_mod_twice(self.initial@[k] + linear_offset(st, disp), m);
                }
                assert(idx_ints(self.offsets@) =~= multi_offsets_at(self.strides(), self.initial@, o, ni));
            }
        }
    }

    fn value(&self) -> (r: Vec<S>) {
        let mut r: Vec<S> = Vec::new();
        let mut k: usize = 0;
        while k < self.offsets.len()
            invariant
                k <= self.offsets@.len(),
                r@ == self.offsets@.subrange(0, k as int),
            decreases self.offsets@.len() - k,
        {
            r.push(self.offsets[k]);
            k += 1;
        }
        proof {
            assert(r@ =~= self.offsets@);
        }
        r
    }

    fn check_ndim(&self, ndim: usize) -> (r: bool)
        ensures
            r == (self.current()@.len() == self.n_operands() && forall|k: int|
                0 <= k < self.n_operands() ==> #[trigger] self.strides()[k].len() == ndim),
    {
        if self.offsets.len() != self.strides.len() {
            return false;
        }
        let n = self.strides.len();
        let mut k: usize = 0;
        while k < n
            invariant
                k <= n,
                n == self.strides@.len(),
                forall|j: int| 0 <= j < k ==> #[trigger] self.strides()[j].len() == ndim,
            decreases n - k,
        {
            if self.strides[k].len() != ndim {
                proof {
                    assert(self.strides()[k as int] == self.strides@[k as int]@);
                }
                return false;
            }
            proof {
                assert(self.strides()[k as int] == self.strides@[k as int]@);
            }
            k += 1;
        }
        true
    }
}

impl<S, X> MergeExtension<X> for NdIterExtStridesOffset<S> {
    type Output = (NdIterExtStridesOffset<S>, X);

    open spec fn merged(self, ext: X) -> (NdIterExtStridesOffset<S>, X) {
        (self, ext)
    }

    fn merge_extension(self, ext: X) -> (r: (NdIterExtStridesOffset<S>, X)) {
        (self, ext)
    }
}

impl<S, X, const N: usize> MergeExtension<X> for NdIterExtStridesOffsetMulti<S, N> {
    type Output = (NdIterExtStridesOffsetMulti<S, N>, X);

    open spec fn merged(self, ext: X) -> (NdIterExtStridesOffsetMulti<S, N>, X) {
        (self, ext)
    }

    fn merge_extension(self, ext: X) -> (r: (NdIterExtStridesOffsetMulti<S, N>, X)) {
        (self, ext)
    }
}

impl<S, X> MergeExtension<X> for NdIterExtStridesOffsetMultiDyn<S> {
    type Output = (NdIterExtStridesOffsetMultiDyn<S>, X);

    open spec fn merged(self, ext: X) -> (NdIterExtStridesOffsetMultiDyn<S>, X) {
        (self, ext)
    }

    fn merge_extension(self, ext: X) -> (r: (NdIterExtStridesOffsetMultiDyn<S>, X)) {
        (self, ext)
    }
}

impl<E> NdIterBuilder<E> {
    /// Appends a [`NdIterExtStridesOffset`] extension.
    pub fn with_strides_offset_ext<S: Idx>(self, strides: Vec<S>, initial_offset: S) -> (r:
        NdIterBuilder<<E as MergeExtension<NdIterExtStridesOffset<S>>>::Output>) where
        E: MergeExtension<NdIterExtStridesOffset<S>>,
        ensures
            r.begin() == self.begin(),
            r.end() == self.end(),
            exists|x: NdIterExtStridesOffset<S>|
                #![trigger self.ext().merged(x)]
                r.ext() == self.ext().merged(x) && x.strides() == strides@ && x.initial_offset()
                    == initial_offset.as_int() && x.current() == initial_offset,
    {
        let ext = NdIterExtStridesOffset::new(strides, initial_offset);
        self.with_ext(ext)
    }

    /// Appends a [`NdIterExtStridesOffsetMulti`] extension tracking `N` offsets at once.
    pub fn with_strides_offset_multi_ext<S: Idx, const N: usize>(
        self,
        strides: [Vec<S>; N],
        initial_offsets: [S; N],
    ) -> (r: NdIterBuilder<<E as MergeExtension<NdIterExtStridesOffsetMulti<S, N>>>::Output>) where
        E: MergeExtension<NdIterExtStridesOffsetMulti<S, N>>,
        ensures
            r.begin() == self.begin(),
            r.end() == self.end(),
            exists|x: NdIterExtStridesOffsetMulti<S, N>|
                #![trigger self.ext().merged(x)]
                r.ext() == self.ext().merged(x) && x.strides() == Seq::new(
                    N as nat,
                    |k: int| strides@[k]@,
                ) && x.initial_offsets() == idx_ints(initial_offsets@) && x.current()
                    == initial_offsets,
    {
        let ext = NdIterExtStridesOffsetMulti::new(strides, initial_offsets);
        self.with_ext(ext)
    }

    /// Appends a [`NdIterExtStridesOffsetMultiDyn`] extension tracking one offset per operand.
    pub fn with_strides_offset_multi_dyn_ext<S: Idx>(
        self,
        strides: Vec<Vec<S>>,
        initial_offsets: Vec<S>,
    ) -> (r: NdIterBuilder<<E as MergeExtension<NdIterExtStridesOffsetMultiDyn<S>>>::Output>) where
        E: MergeExtension<NdIterExtStridesOffsetMultiDyn<S>>,
        requires
            strides.len() == initial_offsets.len(),
        ensures
            r.begin() == self.begin(),
            r.end() == self.end(),
            exists|x: NdIterExtStridesOffsetMultiDyn<S>|
                #![trigger self.ext().merged(x)]
                r.ext() == self.ext().merged(x) && x.strides() == Seq::new(
                    strides@.len(),
                    |k: int| strides@[k]@,
                ) && x.initial_offsets() == idx_ints(initial_offsets@) && x.current()@
                    == initial_offsets@,
    {
        let ext = NdIterExtStridesOffsetMultiDyn::new(strides, initial_offsets);
        self.with_ext(ext)
    }

    /// Appends an extension tracking the row-major global index, within an array of `shape`, of
    /// the walk's index.
    pub fn with_logical_global_index_ext(self, shape: &[u64]) -> (r: NdIterBuilder<
        <E as MergeExtension<NdIterExtStridesOffset<u64>>>::Output,
    >) where E: MergeExtension<NdIterExtStridesOffset<u64>>
        requires
            self.begin().len() == shape@.len(),
        ensures
            r.begin() == self.begin(),
            r.end() == self.end(),
            exists|x: NdIterExtStridesOffset<u64>|
                #![trigger self.ext().merged(x)]
                r.ext() == self.ext().merged(x) && x.strides().len() == shape@.len() && (forall|d: int|
                    0 <= d < shape@.len() ==> #[trigger] x.strides()[d] as int == packed_strides(
                        idx_ints(shape@),
                        1,
                    )[d] % 0x1_0000_0000_0000_0000) && x.initial_offset() == linear_offset(
                    idx_ints(x.strides()),
                    idx_ints(self.begin()),
                ) % 0x1_0000_0000_0000_0000,
    {
        let ext = nd_iter_ext_logical_global_index(shape, self.begin_slice());
        self.with_ext(ext)
    }
}

} // verus!

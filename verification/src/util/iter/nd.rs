use vstd::prelude::*;

verus! {

// ---------------------------------------------------------------------------
// Row-major geometry of a box of indices
// ---------------------------------------------------------------------------

/// The number of positions in the box spanned by the axes `shape[k..]`.
pub open spec fn suffix_volume(shape: Seq<u64>, k: int) -> int
    decreases shape.len() - k,
{
    if 0 <= k < shape.len() {
        shape[k] as int * suffix_volume(shape, k + 1)
    } else {
        1
    }
}

/// The number of positions in the box `shape`.
pub open spec fn volume(shape: Seq<u64>) -> int {
    suffix_volume(shape, 0)
}

/// The row-major rank, within the axes `shape[k..]`, of the digits `digits[k..]`.
pub open spec fn ravel_from(shape: Seq<u64>, digits: Seq<int>, k: int) -> int
    decreases shape.len() - k,
{
    if 0 <= k < shape.len() {
        digits[k] * suffix_volume(shape, k + 1) + ravel_from(shape, digits, k + 1)
    } else {
        0
    }
}

/// The row-major rank of `digits` in the box `shape`: the number of positions that a
/// row-major (C-order, last axis fastest) walk of the box visits before it.
pub open spec fn ravel(shape: Seq<u64>, digits: Seq<int>) -> int {
    ravel_from(shape, digits, 0)
}

/// `digits` is a position inside the box `shape`.
pub open spec fn in_box(shape: Seq<u64>, digits: Seq<int>) -> bool {
    &&& digits.len() == shape.len()
    &&& forall|d: int| 0 <= d < shape.len() ==> 0 <= #[trigger] digits[d] < shape[d]
}

/// The element-wise difference `index - origin`.
pub open spec fn displacement(origin: Seq<int>, index: Seq<int>) -> Seq<int> {
    Seq::new(index.len(), |d: int| index[d] - origin[d])
}

/// The all-zero sequence of length `n`.
pub open spec fn zeros(n: nat) -> Seq<int> {
    Seq::new(n, |d: int| 0int)
}

/// Maps unsigned integers to mathematical integers.
pub open spec fn as_ints(s: Seq<u64>) -> Seq<int> {
    Seq::new(s.len(), |d: int| s[d] as int)
}

pub proof fn lemma_suffix_volume_nonneg(shape: Seq<u64>, k: int)
    ensures
        suffix_volume(shape, k) >= 0,
        (forall|d: int| k <= d < shape.len() ==> shape[d] > 0) ==> suffix_volume(shape, k) > 0,
    decreases shape.len() - k,
{
    if 0 <= k < shape.len() {
        lemma_suffix_volume_nonneg(shape, k + 1);
        vstd::arithmetic::mul::lemma_mul_nonnegative(shape[k] as int, suffix_volume(shape, k + 1));
        if forall|d: int| k <= d < shape.len() ==> shape[d] > 0 {
            assert(shape[k] > 0);
            vstd::arithmetic::mul::lemma_mul_strictly_positive(
                shape[k] as int,
                suffix_volume(shape, k + 1),
            );
        }
    } else if k < 0 {
    }
}

/// A box with a zero-length axis holds no position.
pub proof fn lemma_volume_zero(shape: Seq<u64>, k: int, z: int)
    requires
        0 <= k <= z < shape.len(),
        shape[z] == 0,
    ensures
        suffix_volume(shape, k) == 0,
    decreases z - k,
{
    if k < z {
        lemma_volume_zero(shape, k + 1, z);
    }
}

/// The rank of an in-box position is below the volume of the box.
pub proof fn lemma_ravel_bounds(shape: Seq<u64>, digits: Seq<int>, k: int)
    requires
        in_box(shape, digits),
        0 <= k <= shape.len(),
    ensures
        0 <= ravel_from(shape, digits, k) < suffix_volume(shape, k),
    decreases shape.len() - k,
{
    if k < shape.len() {
        lemma_ravel_bounds(shape, digits, k + 1);
        let s = suffix_volume(shape, k + 1);
        let dk = digits[k];
        assert(0 <= dk < shape[k]);
        assert(0 <= dk * s + ravel_from(shape, digits, k + 1) < shape[k] as int * s)
            by (nonlinear_arith)
            requires
                0 <= dk < shape[k],
                0 <= ravel_from(shape, digits, k + 1) < s,
        ;
    }
}

/// Changing one digit moves the rank by the change times the volume of the inner axes.
pub proof fn lemma_ravel_update(shape: Seq<u64>, digits: Seq<int>, j: int, v: int, k: int)
    requires
        0 <= k,
        0 <= j < shape.len(),
        digits.len() == shape.len(),
    ensures
        k <= j ==> ravel_from(shape, digits.update(j, v), k) == ravel_from(shape, digits, k) + (v
            - digits[j]) * suffix_volume(shape, j + 1),
        k > j ==> ravel_from(shape, digits.update(j, v), k) == ravel_from(shape, digits, k),
    decreases shape.len() - k,
{
    let nd = digits.update(j, v);
    if k < shape.len() {
        lemma_ravel_update(shape, digits, j, v, k + 1);
        if k == j {
            let s = suffix_volume(shape, k + 1);
            assert(v * s == digits[j] * s + (v - digits[j]) * s) by (nonlinear_arith);
        }
    }
}

/// The all-zero position has rank zero.
pub proof fn lemma_ravel_zero(shape: Seq<u64>, digits: Seq<int>, k: int)
    requires
        forall|d: int| 0 <= d < digits.len() ==> digits[d] == 0,
        digits.len() == shape.len(),
        0 <= k,
    ensures
        ravel_from(shape, digits, k) == 0,
    decreases shape.len() - k,
{
    if k < shape.len() {
        lemma_ravel_zero(shape, digits, k + 1);
    }
}

/// Two positions of a box with the same rank are the same position: the row-major rank is a
/// one-to-one numbering of the box.
pub proof fn lemma_ravel_injective(shape: Seq<u64>, a: Seq<int>, b: Seq<int>, k: int)
    requires
        in_box(shape, a),
        in_box(shape, b),
        0 <= k <= shape.len(),
        ravel_from(shape, a, k) == ravel_from(shape, b, k),
    ensures
        forall|d: int| k <= d < shape.len() ==> a[d] == b[d],
    decreases shape.len() - k,
{
    if k < shape.len() {
        let s = suffix_volume(shape, k + 1);
        lemma_ravel_bounds(shape, a, k + 1);
        lemma_ravel_bounds(shape, b, k + 1);
        let ra = ravel_from(shape, a, k + 1);
        let rb = ravel_from(shape, b, k + 1);
        assert(a[k] == b[k]) by (nonlinear_arith)
            requires
                a[k] * s + ra == b[k] * s + rb,
                0 <= ra < s,
                0 <= rb < s,
        ;
        lemma_ravel_injective(shape, a, b, k + 1);
    }
}

/// Rank of a position (in-box) is one-to-one: the law behind "a walk never yields the same
/// index twice".
pub proof fn lemma_ravel_one_to_one(shape: Seq<u64>, a: Seq<int>, b: Seq<int>)
    requires
        in_box(shape, a),
        in_box(shape, b),
        ravel(shape, a) == ravel(shape, b),
    ensures
        a == b,
{
    lemma_ravel_injective(shape, a, b, 0);
    assert(a =~= b);
}

/// `sum over axes d >= k of (shape[d] - 1 - digits[d]) * (volume of the axes after d)`: what a
/// walk still has to visit below its current position in the axes `shape[k..]`.
pub open spec fn remaining_from(shape: Seq<u64>, digits: Seq<int>, k: int) -> int
    decreases shape.len() - k,
{
    if 0 <= k < shape.len() {
        (shape[k] - 1 - digits[k]) * suffix_volume(shape, k + 1) + remaining_from(shape, digits, k + 1)
    } else {
        0
    }
}

/// `remaining_from(k) + 1 + ravel_from(k) == suffix_volume(k)`.
pub proof fn lemma_remaining_from(shape: Seq<u64>, digits: Seq<int>, k: int)
    requires
        0 <= k <= shape.len(),
    ensures
        remaining_from(shape, digits, k) + 1 + ravel_from(shape, digits, k) == suffix_volume(shape, k),
    decreases shape.len() - k,
{
    if k < shape.len() {
        lemma_remaining_from(shape, digits, k + 1);
        let s = suffix_volume(shape, k + 1);
        assert((shape[k] - 1 - digits[k]) * s + digits[k] * s + s == shape[k] * s) by (nonlinear_arith);
    }
}

pub proof fn lemma_remaining_from_nonneg(shape: Seq<u64>, digits: Seq<int>, k: int)
    requires
        in_box(shape, digits),
        0 <= k <= shape.len(),
    ensures
        remaining_from(shape, digits, k) >= 0,
    decreases shape.len() - k,
{
    if k < shape.len() {
        lemma_remaining_from_nonneg(shape, digits, k + 1);
        lemma_suffix_volume_nonneg(shape, k + 1);
        let s = suffix_volume(shape, k + 1);
        assert((shape[k] - 1 - digits[k]) * s >= 0) by (nonlinear_arith)
            requires
                shape[k] - 1 - digits[k] >= 0,
                s >= 0,
        ;
    }
}

/// Every term of the sum bounds the whole sum from below.
pub proof fn lemma_remaining_from_bound(shape: Seq<u64>, digits: Seq<int>, k: int)
    requires
        in_box(shape, digits),
        0 <= k < shape.len(),
    ensures
        remaining_from(shape, digits, 0) >= (shape[k] - 1 - digits[k]) * suffix_volume(shape, k + 1)
            + remaining_from(shape, digits, k + 1),
    decreases k,
{
    if k > 0 {
        lemma_remaining_from_bound(shape, digits, k - 1);
        lemma_suffix_volume_nonneg(shape, k);
        let s = suffix_volume(shape, k);
        assert((shape[k - 1] - 1 - digits[k - 1]) * s >= 0) by (nonlinear_arith)
            requires
                shape[k - 1] - 1 - digits[k - 1] >= 0,
                s >= 0,
        ;
    }
}

// ---------------------------------------------------------------------------
// Extensions
// ---------------------------------------------------------------------------

/// State that an [`NdIter`] keeps up to date alongside its index, from the incremental changes
/// of the index rather than from scratch at every step.
///
/// A step delivers its changes right to left: the axes that wrapped back to their begin are
/// reported (as decreases) before the axis that was incremented. All of a step's changes arrive
/// before [`value`](NdIterExtension::value) is read, and the last element's step also reports the
/// wrap that runs off the end of the walk.
pub trait NdIterExtension: Sized {
    /// The derived value produced at each step.
    type Item;

    /// The extension's state is the one it has at `index` of a walk that started at `origin`.
    open spec fn tracks(&self, origin: Seq<int>, index: Seq<int>) -> bool {
        true
    }

    /// The extension accepts changes along axis `dim`.
    open spec fn follows_axis(&self, dim: int) -> bool {
        true
    }

    /// `item` is the value of [`value`](NdIterExtension::value) in the current state.
    open spec fn yields(&self, item: Self::Item) -> bool {
        true
    }

    /// Axis `dim` moved up to `after`, `diff` positions.
    fn on_increase(&mut self, dim: usize, after: u64, diff: u64)
        requires
            old(self).follows_axis(dim as int),
        ensures
            forall|d: int| #[trigger]
                final(self).follows_axis(d) == old(self).follows_axis(d),
            forall|o: Seq<int>, i: Seq<int>|
                #![trigger old(self).tracks(o, i)]
                old(self).tracks(o, i) && 0 <= dim < i.len() && after == i[dim as int] + diff
                    ==> final(self).tracks(o, i.update(dim as int, after as int)),
    ;

    /// Axis `dim` moved down to `after`, `diff` positions.
    fn on_decrease(&mut self, dim: usize, after: u64, diff: u64)
        requires
            old(self).follows_axis(dim as int),
        ensures
            forall|d: int| #[trigger]
                final(self).follows_axis(d) == old(self).follows_axis(d),
            forall|o: Seq<int>, i: Seq<int>|
                #![trigger old(self).tracks(o, i)]
                old(self).tracks(o, i) && 0 <= dim < i.len() && after == i[dim as int] - diff
                    ==> final(self).tracks(o, i.update(dim as int, after as int)),
    ;

    /// The derived value for the current index.
    fn value(&self) -> (r: Self::Item)
        ensures
            self.yields(r),
    ;

    /// The extension is set up for a walk over `ndim` axes.
    open spec fn accepts_ndim(&self, ndim: int) -> bool {
        true
    }

    /// Whether the extension can follow a walk over `ndim` axes.
    fn check_ndim(&self, ndim: usize) -> (r: bool)
        ensures
            r == self.accepts_ndim(ndim as int),
            r ==> forall|d: int| 0 <= d < ndim ==> #[trigger] self.follows_axis(d),
    ;
}

impl NdIterExtension for () {
    type Item = ();

    open spec fn tracks(&self, origin: Seq<int>, index: Seq<int>) -> bool {
        true
    }

    open spec fn follows_axis(&self, dim: int) -> bool {
        true
    }

    open spec fn yields(&self, item: ()) -> bool {
        true
    }

    open spec fn accepts_ndim(&self, ndim: int) -> bool {
        true
    }

    fn on_increase(&mut self, dim: usize, after: u64, diff: u64) {
    }

    fn on_decrease(&mut self, dim: usize, after: u64, diff: u64) {
    }

    fn value(&self) -> (r: ()) {
    }

    fn check_ndim(&self, ndim: usize) -> (r: bool) {
        true
    }
}

impl<A: NdIterExtension> NdIterExtension for (A,) {
    type Item = (A::Item,);

    open spec fn tracks(&self, origin: Seq<int>, index: Seq<int>) -> bool {
        self.0.tracks(origin, index)
    }

    open spec fn follows_axis(&self, dim: int) -> bool {
        self.0.follows_axis(dim)
    }

    open spec fn yields(&self, item: (A::Item,)) -> bool {
        self.0.yields(item.0)
    }

    open spec fn accepts_ndim(&self, ndim: int) -> bool {
        self.0.accepts_ndim(ndim)
    }

    fn on_increase(&mut self, dim: usize, after: u64, diff: u64) {
        self.0.on_increase(dim, after, diff);
    }

    fn on_decrease(&mut self, dim: usize, after: u64, diff: u64) {
        self.0.on_decrease(dim, after, diff);
    }

    fn value(&self) -> (r: (A::Item,)) {
        (self.0.value(),)
    }

    fn check_ndim(&self, ndim: usize) -> (r: bool) {
        self.0.check_ndim(ndim)
    }
}

impl<A: NdIterExtension, B: NdIterExtension> NdIterExtension for (A, B) {
    type Item = (A::Item, B::Item);

    open spec fn tracks(&self, origin: Seq<int>, index: Seq<int>) -> bool {
        self.0.tracks(origin, index) && self.1.tracks(origin, index)
    }

    open spec fn follows_axis(&self, dim: int) -> bool {
        self.0.follows_axis(dim) && self.1.follows_axis(dim)
    }

    open spec fn yields(&self, item: (A::Item, B::Item)) -> bool {
        self.0.yields(item.0) && self.1.yields(item.1)
    }

    open spec fn accepts_ndim(&self, ndim: int) -> bool {
        self.0.accepts_ndim(ndim) && self.1.accepts_ndim(ndim)
    }

    fn on_increase(&mut self, dim: usize, after: u64, diff: u64) {
        self.0.on_increase(dim, after, diff);
        self.1.on_increase(dim, after, diff);
    }

    fn on_decrease(&mut self, dim: usize, after: u64, diff: u64) {
        self.0.on_decrease(dim, after, diff);
        self.1.on_decrease(dim, after, diff);
    }

    fn value(&self) -> (r: (A::Item, B::Item)) {
        (self.0.value(), self.1.value())
    }

    fn check_ndim(&self, ndim: usize) -> (r: bool) {
        self.0.check_ndim(ndim) && self.1.check_ndim(ndim)
    }
}

impl<A: NdIterExtension, B: NdIterExtension, C: NdIterExtension> NdIterExtension for (A, B, C) {
    type Item = (A::Item, B::Item, C::Item);

    open spec fn tracks(&self, origin: Seq<int>, index: Seq<int>) -> bool {
        self.0.tracks(origin, index) && self.1.tracks(origin, index) && self.2.tracks(origin, index)
    }

    open spec fn follows_axis(&self, dim: int) -> bool {
        self.0.follows_axis(dim) && self.1.follows_axis(dim) && self.2.follows_axis(dim)
    }

    open spec fn yields(&self, item: (A::Item, B::Item, C::Item)) -> bool {
        self.0.yields(item.0) && self.1.yields(item.1) && self.2.yields(item.2)
    }

    open spec fn accepts_ndim(&self, ndim: int) -> bool {
        self.0.accepts_ndim(ndim) && self.1.accepts_ndim(ndim) && self.2.accepts_ndim(ndim)
    }

    fn on_increase(&mut self, dim: usize, after: u64, diff: u64) {
        self.0.on_increase(dim, after, diff);
        self.1.on_increase(dim, after, diff);
        self.2.on_increase(dim, after, diff);
    }

    fn on_decrease(&mut self, dim: usize, after: u64, diff: u64) {
        self.0.on_decrease(dim, after, diff);
        self.1.on_decrease(dim, after, diff);
        self.2.on_decrease(dim, after, diff);
    }

    fn value(&self) -> (r: (A::Item, B::Item, C::Item)) {
        (self.0.value(), self.1.value(), self.2.value())
    }

    fn check_ndim(&self, ndim: usize) -> (r: bool) {
        self.0.check_ndim(ndim) && self.1.check_ndim(ndim) && self.2.check_ndim(ndim)
    }
}

// ---------------------------------------------------------------------------
// The iterator
// ---------------------------------------------------------------------------

/// A call that a walk makes on its extension.
pub enum ExtCall {
    /// `on_increase(dim, after, diff)`.
    Increase { dim: int, after: int, diff: int },
    /// `on_decrease(dim, after, diff)`.
    Decrease { dim: int, after: int, diff: int },
}

/// The extension calls of one step of a walk of `extent` whose index is `index`, `digits` from
/// its begin, looking at the axes below `k`: the innermost of them that is not on its last
/// position moves up by 1 (`on_increase`); every axis inside it, innermost first, first moves
/// back to its begin (`on_decrease`). When every axis is on its last position, each moves back.
pub open spec fn step_calls(extent: Seq<u64>, digits: Seq<int>, index: Seq<int>, k: int) -> Seq<ExtCall>
    decreases k,
{
    if k <= 0 {
        Seq::empty()
    } else {
        let d = k - 1;
        if digits[d] + 1 < extent[d] {
            seq![ExtCall::Increase { dim: d, after: index[d] + 1, diff: 1 }]
        } else {
            seq![ExtCall::Decrease { dim: d, after: index[d] - (extent[d] - 1), diff: extent[d] - 1 }]
                + step_calls(extent, digits, index, k - 1)
        }
    }
}

/// A multi-dimensional iterator over `[begin, end)` that advances indices in row-major (C) order.
///
/// The extension `E` is notified of every index change, so that it can track derived state (such
/// as an offset into a strided buffer) without recomputing it from scratch.
pub struct NdIter<E> {
    shape: Vec<u64>,
    /// Positions left on each axis, counting the current one.
    counters: Vec<u64>,
    /// The index of the item to be yielded next.
    current_idx: Vec<u64>,
    exhausted: bool,
    extensions: E,
    /// Every call made on the extension so far, oldest first.
    calls: Ghost<Seq<ExtCall>>,
}

impl<E: NdIterExtension> NdIter<E> {
    /// The number of positions along each axis (`end - begin`).
    pub closed spec fn extent(&self) -> Seq<u64> {
        self.shape@
    }

    /// How far the index to be yielded next is from `begin`, per axis.
    pub closed spec fn digits(&self) -> Seq<int> {
        Seq::new(self.shape@.len(), |d: int| self.shape@[d] - self.counters@[d])
    }

    /// The first index of the walk.
    pub closed spec fn begin(&self) -> Seq<int> {
        Seq::new(
            self.shape@.len(),
            |d: int| self.current_idx@[d] - (self.shape@[d] - self.counters@[d]),
        )
    }

    /// One past the last index of the walk, per axis.
    pub closed spec fn end(&self) -> Seq<int> {
        Seq::new(self.shape@.len(), |d: int| self.current_idx@[d] + self.counters@[d])
    }

    /// The index to be yielded next.
    pub closed spec fn index(&self) -> Seq<int> {
        as_ints(self.current_idx@)
    }

    /// The number of elements already yielded.
    pub closed spec fn position(&self) -> int {
        if self.exhausted {
            volume(self.shape@)
        } else {
            ravel(self.shape@, self.digits())
        }
    }

    /// The extension.
    pub closed spec fn ext(&self) -> E {
        self.extensions
    }

    /// Every call the walk has made on its extension, oldest first.
    pub closed spec fn calls(&self) -> Seq<ExtCall> {
        self.calls@
    }

    /// The internal consistency of the iterator.
    pub closed spec fn wf(&self) -> bool {
        let n = self.shape@.len();
        &&& self.counters@.len() == n
        &&& self.current_idx@.len() == n
        &&& forall|d: int| 0 <= d < n ==> #[trigger] self.counters@[d] <= self.shape@[d]
        &&& forall|d: int|
            0 <= d < n ==> #[trigger] self.current_idx@[d] + self.counters@[d] >= self.shape@[d]
        &&& forall|d: int|
            0 <= d < n ==> #[trigger] self.current_idx@[d] + self.counters@[d] <= u64::MAX
        &&& !self.exhausted ==> forall|d: int| 0 <= d < n ==> #[trigger] self.counters@[d] >= 1
        &&& self.exhausted ==> forall|d: int| 0 <= d < n ==> #[trigger] self.counters@[d]
            == self.shape@[d]
        &&& forall|d: int| 0 <= d < n ==> #[trigger] self.extensions.follows_axis(d)
        &&& self.extensions.tracks(self.begin(), self.index())
    }

    /// Creates an iterator over `[begin, end)` in every dimension.
    ///
    /// `extensions` must be set up for the walk's first index (`begin`), and able to follow every
    /// axis.
    pub fn new_with_begin(begin: Vec<u64>, end: Vec<u64>, extensions: E) -> (r: Self)
        requires
            begin.len() == end.len(),
            forall|d: int| 0 <= d < begin.len() ==> #[trigger] begin@[d] <= end@[d],
            forall|d: int| 0 <= d < begin.len() ==> #[trigger] extensions.follows_axis(d),
            extensions.tracks(as_ints(begin@), as_ints(begin@)),
        ensures
            r.wf(),
            r.begin() == as_ints(begin@),
            r.end() == as_ints(end@),
            r.extent() == Seq::new(begin@.len(), |d: int| (end@[d] - begin@[d]) as u64),
            r.position() == 0,
            r.ext() == extensions,
            r.calls() == Seq::<ExtCall>::empty(),
    {
        let ndim = begin.len();
        let mut shape: Vec<u64> = Vec::new();
        let mut empty = false;
        let mut dim: usize = 0;
        while dim < ndim
            invariant
                dim <= ndim,
                ndim == begin.len(),
                ndim == end.len(),
                shape@.len() == dim,
                forall|d: int| 0 <= d < ndim ==> #[trigger] begin@[d] <= end@[d],
                forall|d: int| 0 <= d < dim ==> #[trigger] shape@[d] == end@[d] - begin@[d],
                !empty <==> forall|d: int| 0 <= d < dim ==> #[trigger] shape@[d] != 0,
            decreases ndim - dim,
        {
            let len = end[dim] - begin[dim];
            if len == 0 {
                empty = true;
            }
            let ghost prev = shape@;
            shape.push(len);
            proof {
                if len == 0 {
                    assert(shape@[dim as int] == 0);
                }
                if !(forall|d: int| 0 <= d < dim ==> #[trigger] prev[d] != 0) {
                    let w = choose|d: int| !(0 <= d < dim ==> #[trigger] prev[d] != 0);
                    assert(shape@[w] == 0);
                }
            }
            dim += 1;
        }
        let counters = shape.clone();
        let r = NdIter {
            shape,
            counters,
            current_idx: begin,
            exhausted: empty,
            extensions,
            calls: Ghost(Seq::empty()),
        };
        proof {
            assert(r.begin() =~= as_ints(begin@));
            assert(r.end() =~= as_ints(end@));
            assert(r.extent() =~= Seq::new(begin@.len(), |d: int| (end@[d] - begin@[d]) as u64));
            assert(r.index() =~= as_ints(begin@));
            if empty {
                let z = choose|d: int| 0 <= d < ndim && #[trigger] r.shape@[d] == 0;
                lemma_volume_zero(r.shape@, 0, z);
            } else {
                lemma_ravel_zero(r.shape@, r.digits(), 0);
            }
        }
        r
    }

    /// Creates an iterator over `[0, shape)` in every dimension.
    pub fn new(shape: Vec<u64>, extensions: E) -> (r: Self)
        requires
            forall|d: int| 0 <= d < shape.len() ==> #[trigger] extensions.follows_axis(d),
            extensions.tracks(zeros(shape@.len()), zeros(shape@.len())),
        ensures
            r.wf(),
            r.begin() == zeros(shape@.len()),
            r.end() == as_ints(shape@),
            r.extent() == shape@,
            r.position() == 0,
            r.ext() == extensions,
            r.calls() == Seq::<ExtCall>::empty(),
    {
        let mut begin: Vec<u64> = Vec::new();
        let mut dim: usize = 0;
        while dim < shape.len()
            invariant
                dim <= shape.len(),
                begin@.len() == dim,
                forall|d: int| 0 <= d < dim ==> #[trigger] begin@[d] == 0,
            decreases shape.len() - dim,
        {
            begin.push(0);
            dim += 1;
        }
        proof {
            assert(as_ints(begin@) =~= zeros(shape@.len()));
        }
        let r = Self::new_with_begin(begin, shape, extensions);
        proof {
            assert(r.extent() =~= shape@);
        }
        r
    }

    /// The extension.
    pub fn extensions(&self) -> (r: &E)
        ensures
            *r == self.ext(),
    {
        &self.extensions
    }

    /// Advance along a single axis, returning `false` if the axis wrapped back to its begin.
    fn advance_axis(&mut self, dim: usize) -> (r: bool)
        requires
            dim < old(self).shape@.len(),
            old(self).counters@.len() == old(self).shape@.len(),
            old(self).current_idx@.len() == old(self).shape@.len(),
            1 <= old(self).counters@[dim as int] <= old(self).shape@[dim as int],
            old(self).current_idx@[dim as int] + old(self).counters@[dim as int]
                >= old(self).shape@[dim as int],
            old(self).current_idx@[dim as int] + old(self).counters@[dim as int] <= u64::MAX,
            old(self).extensions.follows_axis(dim as int),
        ensures
            final(self).shape == old(self).shape,
            final(self).exhausted == old(self).exhausted,
            final(self).counters@.len() == old(self).counters@.len(),
            final(self).current_idx@.len() == old(self).current_idx@.len(),
            forall|d: int|
                0 <= d < old(self).shape@.len() && d != dim ==> final(self).counters@[d]
                    == old(self).counters@[d] && final(self).current_idx@[d]
                    == old(self).current_idx@[d],
            r ==> final(self).counters@[dim as int] == old(self).counters@[dim as int] - 1,
            r ==> old(self).counters@[dim as int] >= 2,
            r ==> final(self).current_idx@[dim as int] == old(self).current_idx@[dim as int] + 1,
            !r ==> old(self).counters@[dim as int] == 1,
            !r ==> final(self).counters@[dim as int] == old(self).shape@[dim as int],
            !r ==> final(self).current_idx@[dim as int] == old(self).current_idx@[dim as int]
                - (old(self).shape@[dim as int] - 1),
            forall|d: int| #[trigger]
                final(self).extensions.follows_axis(d) == old(self).extensions.follows_axis(d),
            forall|o: Seq<int>|
                old(self).extensions.tracks(o, as_ints(old(self).current_idx@))
                    ==> final(self).extensions.tracks(o, as_ints(final(self).current_idx@)),
            r ==> final(self).calls@ == old(self).calls@.push(
                ExtCall::Increase {
                    dim: dim as int,
                    after: old(self).current_idx@[dim as int] + 1,
                    diff: 1,
                },
            ),
            !r ==> final(self).calls@ == old(self).calls@.push(
                ExtCall::Decrease {
                    dim: dim as int,
                    after: old(self).current_idx@[dim as int] - (old(self).shape@[dim as int] - 1),
                    diff: old(self).shape@[dim as int] - 1,
                },
            ),
    {
        let remaining = self.counters[dim] - 1;
        self.counters.set(dim, remaining);
        let ghost old_idx = as_ints(self.current_idx@);
        if remaining != 0 {
            let after = self.current_idx[dim] + 1;
            self.current_idx.set(dim, after);
            self.extensions.on_increase(dim, after, 1);
            proof {
                self.calls@ = self.calls@.push(
                    ExtCall::Increase { dim: dim as int, after: after as int, diff: 1 },
                );
                assert(as_ints(self.current_idx@) =~= old_idx.update(dim as int, after as int));
            }
            return true;
        }
        let axis_len = self.shape[dim];
        let diff = axis_len - 1;
        let begin = self.current_idx[dim] - diff;
        self.counters.set(dim, axis_len);
        self.current_idx.set(dim, begin);
        self.extensions.on_decrease(dim, begin, diff);
        proof {
            self.calls@ = self.calls@.push(
                ExtCall::Decrease { dim: dim as int, after: begin as int, diff: diff as int },
            );
            assert(as_ints(self.current_idx@) =~= old_idx.update(dim as int, begin as int));
        }
        false
    }

    /// Advance to the next index, returning `false` (with every axis back at its begin) when the
    /// walk ran off its end.
    fn advance(&mut self) -> (r: bool)
        requires
            old(self).wf(),
            !old(self).exhausted,
        ensures
            final(self).wf(),
            !final(self).exhausted,
            final(self).shape == old(self).shape,
            final(self).begin() == old(self).begin(),
            r ==> final(self).position() == old(self).position() + 1,
            !r ==> old(self).position() == volume(old(self).shape@) - 1,
            !r ==> final(self).counters@ == final(self).shape@,
            final(self).calls@ == old(self).calls@ + step_calls(
                old(self).shape@,
                old(self).digits(),
                as_ints(old(self).current_idx@),
                old(self).shape@.len() as int,
            ),
    {
                let ghost orig_digits = self.digits();
        let ghost orig_begin = self.begin();
        let ndim = self.shape.len();
        let mut dim = ndim;
        proof {
            assert(self.digits() =~= orig_digits);
        }
        let mut advanced = false;
        while dim > 0 && !advanced
            invariant
                dim <= ndim,
                ndim == self.shape@.len(),
                self.shape == old(self).shape,
                !self.exhausted,
                self.counters@.len() == ndim,
                self.current_idx@.len() == ndim,
                forall|d: int| 0 <= d < ndim ==> #[trigger] self.counters@[d] <= self.shape@[d],
                forall|d: int| 0 <= d < ndim ==> #[trigger] self.counters@[d] >= 1,
                forall|d: int|
                    0 <= d < ndim ==> #[trigger] self.current_idx@[d] + self.counters@[d]
                        >= self.shape@[d],
                forall|d: int|
                    0 <= d < ndim ==> #[trigger] self.current_idx@[d] + self.counters@[d]
                        <= u64::MAX,
                forall|d: int| 0 <= d < ndim ==> #[trigger] self.extensions.follows_axis(d),
                self.begin() == orig_begin,
                self.extensions.tracks(orig_begin, self.index()),
                orig_digits == old(self).digits(),
                !advanced ==> forall|d: int| dim <= d < ndim ==> #[trigger] self.counters@[d] == self.shape@[d],
                !advanced ==> forall|d: int| dim <= d < ndim ==> #[trigger] orig_digits[d] == self.shape@[d] - 1,
                !advanced ==> forall|d: int| 0 <= d < dim ==> #[trigger] self.counters@[d] == old(self).counters@[d],
                !advanced ==> ravel(self.shape@, self.digits()) + suffix_volume(self.shape@, dim as int) - 1
                    == ravel(old(self).shape@, orig_digits),
                advanced ==> self.wf(),
                advanced ==> ravel(self.shape@, self.digits()) == ravel(old(self).shape@, orig_digits) + 1,
                old(self).current_idx@.len() == ndim,
                old(self).counters@.len() == ndim,
                !advanced ==> forall|d: int| 0 <= d < dim ==> #[trigger] self.current_idx@[d] == old(self).current_idx@[d],
                !advanced ==> old(self).calls@ + step_calls(self.shape@, orig_digits, as_ints(old(self).current_idx@), ndim as int)
                    == self.calls@ + step_calls(self.shape@, orig_digits, as_ints(old(self).current_idx@), dim as int),
                advanced ==> self.calls@ == old(self).calls@ + step_calls(self.shape@, orig_digits, as_ints(old(self).current_idx@), ndim as int),
            decreases dim + if advanced { 0int } else { 1int },
        {
            dim -= 1;
            let ghost before = *self;
            let ghost before_digits = self.digits();
            advanced = self.advance_axis(dim);
            proof {
                let oi = as_ints(old(self).current_idx@);
                let rest = step_calls(self.shape@, orig_digits, oi, dim as int);
                assert(orig_digits[dim as int] == self.shape@[dim as int] - old(self).counters@[dim as int]);
                assert(before.current_idx@[dim as int] == old(self).current_idx@[dim as int]);
                assert(oi[dim as int] == old(self).current_idx@[dim as int] as int);
                assert(before.shape@ == self.shape@);
                if advanced {
                    assert(step_calls(self.shape@, orig_digits, oi, dim as int + 1) =~= seq![
                        ExtCall::Increase { dim: dim as int, after: oi[dim as int] + 1, diff: 1 },
                    ]);
                    assert(self.calls@ =~= before.calls@ + step_calls(self.shape@, orig_digits, oi, dim as int + 1));
                } else {
                    let dc = ExtCall::Decrease {
                        dim: dim as int,
                        after: oi[dim as int] - (self.shape@[dim as int] - 1),
                        diff: self.shape@[dim as int] - 1,
                    };
                    assert(step_calls(self.shape@, orig_digits, oi, dim as int + 1) =~= seq![dc] + rest);
                    assert(before.calls@ + (seq![dc] + rest) =~= self.calls@ + rest);
                }
                let s_in = suffix_volume(self.shape@, dim + 1);
                assert(self.begin() =~= orig_begin);
                if advanced {
                    assert(self.digits() =~= before_digits.update(
                        dim as int,
                        before_digits[dim as int] + 1,
                    ));
                    lemma_ravel_update(self.shape@, before_digits, dim as int, before_digits[dim as int] + 1, 0);
                    assert((before_digits[dim as int] + 1 - before_digits[dim as int]) * s_in == s_in)
                        by (nonlinear_arith);
                    assert(ravel(self.shape@, self.digits()) == ravel(self.shape@, before_digits) + s_in);
                    assert(ravel(self.shape@, self.digits()) == ravel(old(self).shape@, orig_digits) + 1);
                } else {
                    assert(self.digits() =~= before_digits.update(dim as int, 0));
                    lemma_ravel_update(self.shape@, before_digits, dim as int, 0, 0);
                    assert(suffix_volume(self.shape@, dim as int) == self.shape@[dim as int] * s_in);
                    assert((0 - before_digits[dim as int]) * s_in + self.shape@[dim as int] * s_in
                        == s_in) by (nonlinear_arith)
                        requires
                            before_digits[dim as int] == self.shape@[dim as int] - 1,
                    ;
                }
            }
        }
        if advanced {
            return true;
        }
        proof {
            assert(self.calls@ + step_calls(self.shape@, orig_digits, as_ints(old(self).current_idx@), 0) =~= self.calls@);
            assert(self.digits() =~= zeros(ndim as nat));
            lemma_ravel_zero(self.shape@, self.digits(), 0);
            assert(self.counters@ =~= self.shape@);
        }
        false
    }

    /// Yields the next index with the extension's value there, or `None` once every index of
    /// `[begin, end)` has been yielded.
    ///
    /// The `k`-th call yields the index whose row-major rank in the box is `k`.
    pub fn next(&mut self) -> (r: Option<(Vec<u64>, E::Item)>)
        requires
            old(self).wf(),
        ensures
            final(self).wf(),
            final(self).extent() == old(self).extent(),
            final(self).begin() == old(self).begin(),
            old(self).position() < volume(old(self).extent()) <==> r is Some,
            r is Some ==> final(self).position() == old(self).position() + 1,
            r is None ==> final(self).position() == old(self).position(),
            r matches Some((idx, item)) ==> {
                &&& as_ints(idx@) == old(self).index()
                &&& in_box(old(self).extent(), displacement(old(self).begin(), as_ints(idx@)))
                &&& ravel(old(self).extent(), displacement(old(self).begin(), as_ints(idx@)))
                    == old(self).position()
                &&& old(self).ext().yields(item)
                &&& old(self).ext().tracks(old(self).begin(), as_ints(idx@))
            },
            r is Some ==> final(self).calls() == old(self).calls() + step_calls(
                old(self).extent(),
                old(self).digits(),
                old(self).index(),
                old(self).extent().len() as int,
            ),
            r is None ==> final(self).calls() == old(self).calls(),
    {
        proof {
            self.lemma_wf();
        }
        if self.exhausted {
            return None;
        }
        proof {
            assert(in_box(self.shape@, self.digits()));
            lemma_ravel_bounds(self.shape@, self.digits(), 0);
        }
        let idx = self.current_idx.clone();
        let item = self.extensions.value();
        let ghost old_self = *self;
        proof {
            assert(displacement(self.begin(), as_ints(idx@)) =~= self.digits());
        }
        let advanced = self.advance();
        if !advanced {
            self.exhausted = true;
            proof {
                assert(self.begin() =~= old_self.begin());
                assert(self.index() =~= self.begin());
            }
        }
        Some((idx, item))
    }

    /// The number of indices not yet yielded, or `None` when it does not fit in a `u64`.
    #[verifier::spinoff_prover]
    #[verifier::rlimit(40)]
    pub fn remaining(&self) -> (r: Option<u64>)
        requires
            self.wf(),
        ensures
            volume(self.extent()) - self.position() <= u64::MAX <==> r is Some,
            r matches Some(n) ==> n == volume(self.extent()) - self.position(),
    {
        proof {
            self.lemma_wf();
        }
        if self.exhausted {
            return Some(0);
        }
        let ndim = self.counters.len();
        let mut remaining: u64 = 1;
        // `None` once the volume of the inner axes exceeds `u64::MAX`.
        let mut axis_volume: Option<u64> = Some(1);
        let mut dim = ndim;
        proof {
            lemma_suffix_volume_nonneg(self.shape@, 0);
            lemma_remaining_from(self.shape@, self.digits(), ndim as int);
            assert(in_box(self.shape@, self.digits()));
        }
        while dim > 0
            invariant
                self.wf(),
                in_box(self.shape@, self.digits()),
                !self.exhausted,
                dim <= ndim,
                ndim == self.shape@.len(),
                remaining as int == 1 + remaining_from(self.shape@, self.digits(), dim as int),
                axis_volume is Some <==> suffix_volume(self.shape@, dim as int) <= u64::MAX,
                axis_volume matches Some(v) ==> v == suffix_volume(self.shape@, dim as int),
            decreases dim,
        {
            dim -= 1;
            let left = self.counters[dim] - 1;
            proof {
                lemma_suffix_volume_nonneg(self.shape@, dim as int);
                lemma_suffix_volume_nonneg(self.shape@, dim as int + 1);
                lemma_remaining_from_nonneg(self.shape@, self.digits(), dim as int + 1);
                assert(self.digits()[dim as int] == self.shape@[dim as int] - self.counters@[dim as int]);
                assert(self.shape@[dim as int] - 1 - self.digits()[dim as int] == left);
                lemma_remaining_from(self.shape@, self.digits(), 0);
                assert(remaining_from(self.shape@, self.digits(), dim as int) == left as int
                    * suffix_volume(self.shape@, dim as int + 1) + remaining_from(
                    self.shape@,
                    self.digits(),
                    dim as int + 1,
                ));
                if left == 0 {
                    vstd::arithmetic::mul::lemma_mul_basics(suffix_volume(self.shape@, dim as int + 1));
                }
            }
            if left != 0 {
                match axis_volume {
                    None => {
                        proof {
                            assert(left as int * suffix_volume(self.shape@, dim as int + 1)
                                >= suffix_volume(self.shape@, dim as int + 1)) by (nonlinear_arith)
                                requires
                                    left >= 1,
                                    suffix_volume(self.shape@, dim as int + 1) >= 0,
                            ;
                            lemma_remaining_from_bound(self.shape@, self.digits(), dim as int);
                        }
                        return None;
                    },
                    Some(v) => {
                        match left.checked_mul(v) {
                            None => {
                                proof {
                                    lemma_remaining_from_bound(self.shape@, self.digits(), dim as int);
                                }
                                return None;
                            },
                            Some(term) => {
                                match remaining.checked_add(term) {
                                    None => {
                                        proof {
                                            lemma_remaining_from_bound(self.shape@, self.digits(), dim as int);
                                        }
                                        return None;
                                    },
                                    Some(next) => {
                                        remaining = next;
                                    },
                                }
                            },
                        }
                    },
                }
            }
            let ghost prev = axis_volume;
            axis_volume = match axis_volume {
                None => None,
                Some(v) => v.checked_mul(self.shape[dim]),
            };
            proof {
                let sv1 = suffix_volume(self.shape@, dim as int + 1);
                assert(suffix_volume(self.shape@, dim as int) == self.shape@[dim as int] * sv1);
                assert(self.shape@[dim as int] >= 1);
                if prev is None {
                    assert(self.shape@[dim as int] * sv1 >= sv1) by (nonlinear_arith)
                        requires
                            self.shape@[dim as int] >= 1,
                            sv1 >= 0,
                    ;
                } else {
                    assert(prev->0 == sv1);
                    assert(prev->0 * self.shape@[dim as int] == self.shape@[dim as int] * sv1)
                        by (nonlinear_arith)
                        requires
                            prev->0 == sv1,
                    ;
                }
            }
        }
        proof {
            lemma_remaining_from(self.shape@, self.digits(), 0);
        }
        Some(remaining)
    }

    /// The exact number of remaining items, as `(len, Some(len))`, or `(usize::MAX, None)` when
    /// it does not fit in a `usize`.
    pub fn size_hint(&self) -> (r: (usize, Option<usize>))
        requires
            self.wf(),
        ensures
            volume(self.extent()) - self.position() <= usize::MAX ==> r == (
                (volume(self.extent()) - self.position()) as usize,
                Some((volume(self.extent()) - self.position()) as usize),
            ),
            volume(self.extent()) - self.position() > usize::MAX ==> r == (usize::MAX, None::<usize>),
    {
        match self.remaining() {
            Some(n) => {
                if n <= usize::MAX as u64 {
                    (n as usize, Some(n as usize))
                } else {
                    (usize::MAX, None)
                }
            },
            None => (usize::MAX, None),
        }
    }

    pub proof fn lemma_wf(&self)
        requires
            self.wf(),
        ensures
            0 <= self.position() <= volume(self.extent()),
            self.position() == volume(self.extent()) ==> self.digits() =~= Seq::new(
                self.extent().len(),
                |d: int| 0,
            ),
            in_box(self.extent(), self.digits()) || self.position() == volume(self.extent()),
            self.index() =~= Seq::new(
                self.extent().len(),
                |d: int| self.begin()[d] + self.digits()[d],
            ),
            self.begin().len() == self.extent().len(),
            self.end().len() == self.extent().len(),
            forall|d: int|
                0 <= d < self.extent().len() ==> #[trigger] self.end()[d] == self.begin()[d]
                    + self.extent()[d],
    {
        let n = self.shape@.len();
        lemma_suffix_volume_nonneg(self.shape@, 0);
        if !self.exhausted {
            lemma_ravel_bounds(self.shape@, self.digits(), 0);
        }
    }
}

// ---------------------------------------------------------------------------
// Appending extensions
// ---------------------------------------------------------------------------

/// Appends the extension `X` to a list of extensions.
///
/// A merge is performed like appending to a list: `()` is the empty list (`() + X = X`), a single
/// extension `A` is a one-element list (`A + X = (A, X)`), and a tuple grows by one
/// (`(A, B) + X = (A, B, X)`).
pub trait MergeExtension<X>: Sized {
    type Output;

    /// The list with `ext` appended.
    spec fn merged(self, ext: X) -> Self::Output;

    fn merge_extension(self, ext: X) -> (r: Self::Output)
        ensures
            r == self.merged(ext),
    ;
}

impl<X> MergeExtension<X> for () {
    type Output = X;

    open spec fn merged(self, ext: X) -> X {
        ext
    }

    fn merge_extension(self, ext: X) -> (r: X) {
        ext
    }
}

impl<A, X> MergeExtension<X> for (A,) {
    type Output = (A, X);

    open spec fn merged(self, ext: X) -> (A, X) {
        (self.0, ext)
    }

    fn merge_extension(self, ext: X) -> (r: (A, X)) {
        (self.0, ext)
    }
}

impl<A, B, X> MergeExtension<X> for (A, B) {
    type Output = (A, B, X);

    open spec fn merged(self, ext: X) -> (A, B, X) {
        (self.0, self.1, ext)
    }

    fn merge_extension(self, ext: X) -> (r: (A, B, X)) {
        (self.0, self.1, ext)
    }
}

/// A builder for [`NdIter`] that accumulates extensions one at a time.
///
/// Start from [`NdIter::builder`] (or [`NdIter::builder_with_begin`]) with no extension, append
/// extensions with the `with_*_ext` methods, then call [`build`](NdIterBuilder::build).
pub struct NdIterBuilder<E> {
    begin: Vec<u64>,
    end: Vec<u64>,
    extensions: E,
}

impl<E> NdIterBuilder<E> {
    /// The first index of the walk.
    pub closed spec fn begin(&self) -> Seq<u64> {
        self.begin@
    }

    /// One past the last index of the walk.
    pub closed spec fn end(&self) -> Seq<u64> {
        self.end@
    }

    /// The extensions appended so far.
    pub closed spec fn ext(&self) -> E {
        self.extensions
    }

    /// The first index of the walk.
    pub fn begin_slice(&self) -> (r: &[u64])
        ensures
            r@ == self.begin(),
    {
        self.begin.as_slice()
    }

    /// Appends `ext`.
    pub fn with_ext<X>(self, ext: X) -> (r: NdIterBuilder<<E as MergeExtension<X>>::Output>) where
        E: MergeExtension<X>,
        ensures
            r.begin() == self.begin(),
            r.end() == self.end(),
            r.ext() == self.ext().merged(ext),
    {
        NdIterBuilder {
            begin: self.begin,
            end: self.end,
            extensions: self.extensions.merge_extension(ext),
        }
    }
}

impl<E: NdIterExtension> NdIterBuilder<E> {
    /// Builds the iterator over `[begin, end)` with the appended extensions.
    pub fn build(self) -> (r: NdIter<E>)
        requires
            self.begin().len() == self.end().len(),
            forall|d: int| 0 <= d < self.begin().len() ==> #[trigger] self.begin()[d] <= self.end()[d],
            forall|d: int| 0 <= d < self.begin().len() ==> #[trigger] self.ext().follows_axis(d),
            self.ext().tracks(as_ints(self.begin()), as_ints(self.begin())),
        ensures
            r.wf(),
            r.begin() == as_ints(self.begin()),
            r.end() == as_ints(self.end()),
            r.position() == 0,
            r.ext() == self.ext(),
    {
        NdIter::new_with_begin(self.begin, self.end, self.extensions)
    }
}

impl NdIter<()> {
    /// Starts a builder iterating `[0, shape)` in every dimension, with no extensions.
    pub fn builder(shape: Vec<u64>) -> (r: NdIterBuilder<()>)
        ensures
            as_ints(r.begin()) == zeros(shape@.len()),
            r.begin().len() == shape@.len(),
            r.end() == shape@,
    {
        let mut begin: Vec<u64> = Vec::new();
        let mut dim: usize = 0;
        while dim < shape.len()
            invariant
                dim <= shape.len(),
                begin@.len() == dim,
                forall|d: int| 0 <= d < dim ==> #[trigger] begin@[d] == 0,
            decreases shape.len() - dim,
        {
            begin.push(0);
            dim += 1;
        }
        proof {
            assert(as_ints(begin@) =~= zeros(shape@.len()));
        }
        NdIterBuilder { begin, end: shape, extensions: () }
    }

    /// Starts a builder iterating `[begin, end)` in every dimension, with no extensions.
    pub fn builder_with_begin(begin: Vec<u64>, end: Vec<u64>) -> (r: NdIterBuilder<()>)
        ensures
            r.begin() == begin@,
            r.end() == end@,
    {
        NdIterBuilder { begin, end, extensions: () }
    }
}

/// A plain index-only iterator: an [`NdIter`] with no extension.
pub struct IdxIter(NdIter<()>);

impl IdxIter {
    /// The underlying walk.
    pub closed spec fn walk(&self) -> NdIter<()> {
        self.0
    }

    /// Creates an iterator over `[0, shape)` in every dimension.
    pub fn new(shape: Vec<u64>) -> (r: Self)
        ensures
            r.walk().wf(),
            r.walk().begin() == zeros(shape@.len()),
            r.walk().extent() == shape@,
            r.walk().position() == 0,
    {
        IdxIter(NdIter::new(shape, ()))
    }

    /// Returns the next multi-dimensional index, or `None` when exhausted.
    pub fn next(&mut self) -> (r: Option<Vec<u64>>)
        requires
            old(self).walk().wf(),
            old(self).walk().begin() == zeros(old(self).walk().extent().len()),
        ensures
            final(self).walk().wf(),
            final(self).walk().extent() == old(self).walk().extent(),
            final(self).walk().begin() == old(self).walk().begin(),
            old(self).walk().position() < volume(old(self).walk().extent()) <==> r is Some,
            r is Some ==> final(self).walk().position() == old(self).walk().position() + 1,
            r is None ==> final(self).walk().position() == old(self).walk().position(),
            r matches Some(idx) ==> {
                &&& in_box(old(self).walk().extent(), as_ints(idx@))
                &&& ravel(old(self).walk().extent(), as_ints(idx@)) == old(self).walk().position()
            },
    {
        match self.0.next() {
            Some((idx, _)) => {
                proof {
                    assert(displacement(old(self).walk().begin(), as_ints(idx@)) =~= as_ints(idx@));
                }
                Some(idx)
            },
            None => None,
        }
    }
}

} // verus!

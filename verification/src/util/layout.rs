use vstd::prelude::*;

verus! {

// ---------------------------------------------------------------------------
// Strided layouts shared by several operands, and walks that visit the same elements
// ---------------------------------------------------------------------------

/// The sum of the entries.
pub open spec fn seq_sum(s: Seq<int>) -> int
    decreases s.len(),
{
    if s.len() == 0 {
        0
    } else {
        seq_sum(s.drop_last()) + s.last()
    }
}

/// The product of the entries.
pub open spec fn seq_prod(s: Seq<int>) -> int
    decreases s.len(),
{
    if s.len() == 0 {
        1
    } else {
        seq_prod(s.drop_last()) * s.last()
    }
}

/// The per-axis contributions `u[d] * s[d]` of an index to an offset.
pub open spec fn terms(u: Seq<int>, s: Seq<int>) -> Seq<int> {
    Seq::new(u.len(), |d: int| u[d] * s[d])
}

/// The offset of index `u` under the strides `s`: `sum_d u[d] * s[d]`.
pub open spec fn dot(u: Seq<int>, s: Seq<int>) -> int {
    seq_sum(terms(u, s))
}

/// The offset of index `u` for every operand, each with its own strides.
pub open spec fn offsets(strides: Seq<Seq<int>>, u: Seq<int>) -> Seq<int> {
    Seq::new(strides.len(), |i: int| dot(u, strides[i]))
}

/// `u` is an index of the box `shape`: `0 <= u[d] < shape[d]` in every dimension.
pub open spec fn within(shape: Seq<int>, u: Seq<int>) -> bool {
    &&& u.len() == shape.len()
    &&& forall|d: int| 0 <= d < u.len() ==> 0 <= #[trigger] u[d] < shape[d]
}

/// Every operand has one stride per dimension of `shape`.
pub open spec fn well_shaped(shape: Seq<int>, strides: Seq<Seq<int>>) -> bool {
    forall|i: int| 0 <= i < strides.len() ==> #[trigger] strides[i].len() == shape.len()
}

/// Walking the layout `(shape2, strides2)` visits exactly the elements of `(shape1, strides1)`,
/// each once: `f` maps every index of the second box to an index of the first at the same offset
/// for every operand, it maps no two indices to one and it reaches every index of the first box;
/// both boxes hold as many indices.
pub open spec fn walks_same(
    shape1: Seq<int>,
    strides1: Seq<Seq<int>>,
    shape2: Seq<int>,
    strides2: Seq<Seq<int>>,
    f: spec_fn(Seq<int>) -> Seq<int>,
) -> bool {
    &&& seq_prod(shape1) == seq_prod(shape2)
    &&& strides1.len() == strides2.len()
    &&& forall|u: Seq<int>|
        within(shape2, u) ==> within(shape1, #[trigger] f(u)) && offsets(strides1, f(u))
            == offsets(strides2, u)
    &&& forall|u: Seq<int>, v: Seq<int>|
        within(shape2, u) && within(shape2, v) && #[trigger] f(u) == #[trigger] f(v) ==> u == v
    &&& forall|x: Seq<int>| #[trigger] within(shape1, x) ==> exists|u: Seq<int>| within(shape2, u) && #[trigger] f(u) == x
}

pub proof fn lemma_seq_sum_append(a: Seq<int>, b: Seq<int>)
    ensures
        seq_sum(a + b) == seq_sum(a) + seq_sum(b),
    decreases b.len(),
{
    if b.len() > 0 {
        lemma_seq_sum_append(a, b.drop_last());
        assert((a + b).drop_last() =~= a + b.drop_last());
    } else {
        assert(a + b =~= a);
    }
}

pub proof fn lemma_seq_prod_append(a: Seq<int>, b: Seq<int>)
    ensures
        seq_prod(a + b) == seq_prod(a) * seq_prod(b),
    decreases b.len(),
{
    if b.len() > 0 {
        lemma_seq_prod_append(a, b.drop_last());
        assert((a + b).drop_last() =~= a + b.drop_last());
        let pa = seq_prod(a);
        let pb = seq_prod(b.drop_last());
        assert(pa * pb * b.last() == pa * (pb * b.last())) by (nonlinear_arith);
    } else {
        assert(a + b =~= a);
    }
}

/// Removing entry `i` takes it out of the sum.
pub proof fn lemma_seq_sum_remove(s: Seq<int>, i: int)
    requires
        0 <= i < s.len(),
    ensures
        seq_sum(s.remove(i)) + s[i] == seq_sum(s),
{
    let pre = s.subrange(0, i);
    let post = s.subrange(i + 1, s.len() as int);
    assert(s.remove(i) =~= pre + post);
    assert(s =~= pre + (seq![s[i]] + post));
    lemma_seq_sum_append(pre, post);
    lemma_seq_sum_append(pre, seq![s[i]] + post);
    lemma_seq_sum_append(seq![s[i]], post);
    assert(seq![s[i]].drop_last() =~= Seq::<int>::empty());
    assert(seq_sum(Seq::<int>::empty()) == 0);
    assert(seq_sum(seq![s[i]]) == s[i]);
}

/// Inserting `x` adds it to the sum.
pub proof fn lemma_seq_sum_insert(s: Seq<int>, q: int, x: int)
    requires
        0 <= q <= s.len(),
    ensures
        seq_sum(s.insert(q, x)) == seq_sum(s) + x,
{
    lemma_seq_sum_remove(s.insert(q, x), q);
    assert(s.insert(q, x).remove(q) =~= s);
}

/// Removing entry `i` divides it out of the product.
pub proof fn lemma_seq_prod_remove(s: Seq<int>, i: int)
    requires
        0 <= i < s.len(),
    ensures
        seq_prod(s.remove(i)) * s[i] == seq_prod(s),
{
    let pre = s.subrange(0, i);
    let post = s.subrange(i + 1, s.len() as int);
    assert(s.remove(i) =~= pre + post);
    assert(s =~= pre + (seq![s[i]] + post));
    lemma_seq_prod_append(pre, post);
    lemma_seq_prod_append(pre, seq![s[i]] + post);
    lemma_seq_prod_append(seq![s[i]], post);
    assert(seq![s[i]].drop_last() =~= Seq::<int>::empty());
    assert(seq_prod(Seq::<int>::empty()) == 1);
    assert(seq_prod(seq![s[i]]) == s[i]);
    let a = seq_prod(pre);
    let b = seq_prod(post);
    assert(a * b * s[i] == a * (s[i] * b)) by (nonlinear_arith);
}

/// Inserting `x` multiplies it into the product.
pub proof fn lemma_seq_prod_insert(s: Seq<int>, q: int, x: int)
    requires
        0 <= q <= s.len(),
    ensures
        seq_prod(s.insert(q, x)) == seq_prod(s) * x,
{
    lemma_seq_prod_remove(s.insert(q, x), q);
    assert(s.insert(q, x).remove(q) =~= s);
}

/// Every layout walks the same elements as itself.
pub proof fn lemma_walks_same_refl(shape: Seq<int>, strides: Seq<Seq<int>>)
    ensures
        walks_same(shape, strides, shape, strides, |u: Seq<int>| u),
{
    let f = |u: Seq<int>| u;
    assert forall|x: Seq<int>| #[trigger] within(shape, x) implies exists|u: Seq<int>|
        within(shape, u) && #[trigger] f(u) == x by {
        assert(f(x) == x);
    }
}

/// Walking the same elements composes.
pub proof fn lemma_walks_same_trans(
    shape1: Seq<int>,
    strides1: Seq<Seq<int>>,
    shape2: Seq<int>,
    strides2: Seq<Seq<int>>,
    shape3: Seq<int>,
    strides3: Seq<Seq<int>>,
    f: spec_fn(Seq<int>) -> Seq<int>,
    g: spec_fn(Seq<int>) -> Seq<int>,
)
    requires
        walks_same(shape1, strides1, shape2, strides2, f),
        walks_same(shape2, strides2, shape3, strides3, g),
    ensures
        walks_same(shape1, strides1, shape3, strides3, |u: Seq<int>| f(g(u))),
{
    let h = |u: Seq<int>| f(g(u));
    assert forall|u: Seq<int>| within(shape3, u) implies within(shape1, #[trigger] h(u)) && offsets(
        strides1,
        h(u),
    ) == offsets(strides3, u) by {
        assert(within(shape2, g(u)));
    }
    assert forall|u: Seq<int>, v: Seq<int>|
        within(shape3, u) && within(shape3, v) && #[trigger] h(u) == #[trigger] h(v) implies u
        == v by {
        assert(within(shape2, g(u)) && within(shape2, g(v)));
        assert(f(g(u)) == f(g(v)));
        assert(g(u) == g(v));
    }
    assert forall|x: Seq<int>| #[trigger] within(shape1, x) implies exists|u: Seq<int>|
        within(shape3, u) && #[trigger] h(u) == x by {
        let y = choose|y: Seq<int>| within(shape2, y) && #[trigger] f(y) == x;
        let u = choose|u: Seq<int>| within(shape3, u) && #[trigger] g(u) == y;
        assert(h(u) == x);
    }
}

/// Dropping an axis of length 1 walks the same elements.
pub proof fn lemma_walks_same_drop(shape: Seq<int>, strides: Seq<Seq<int>>, j: int)
    requires
        0 <= j < shape.len(),
        shape[j] == 1,
        well_shaped(shape, strides),
    ensures
        walks_same(
            shape,
            strides,
            shape.remove(j),
            Seq::new(strides.len(), |i: int| strides[i].remove(j)),
            |u: Seq<int>| u.insert(j, 0),
        ),
        well_shaped(shape.remove(j), Seq::new(strides.len(), |i: int| strides[i].remove(j))),
{
    let shape2 = shape.remove(j);
    let strides2 = Seq::new(strides.len(), |i: int| strides[i].remove(j));
    let f = |u: Seq<int>| u.insert(j, 0);
    lemma_seq_prod_remove(shape, j);
    assert forall|u: Seq<int>| within(shape2, u) implies within(shape, #[trigger] f(u)) && offsets(
        strides,
        f(u),
    ) == offsets(strides2, u) by {
        assert forall|d: int| 0 <= d < shape.len() implies 0 <= #[trigger] f(u)[d] < shape[d] by {
            if d > j {
                assert(f(u)[d] == u[d - 1]);
            }
        }
        assert forall|i: int| 0 <= i < strides.len() implies #[trigger] offsets(strides, f(u))[i]
            == offsets(strides2, u)[i] by {
            let t = terms(u, strides2[i]);
            assert(strides2[i] == strides[i].remove(j));
            assert forall|d: int| 0 <= d < shape.len() implies #[trigger] terms(f(u), strides[i])[d]
                == t.insert(j, 0)[d] by {
                assert(terms(f(u), strides[i])[d] == f(u)[d] * strides[i][d]);
                if d < j {
                    assert(f(u)[d] == u[d]);
                    assert(strides2[i][d] == strides[i][d]);
                    assert(t.insert(j, 0)[d] == t[d]);
                } else if d == j {
                    assert(f(u)[d] == 0);
                    assert(0 * strides[i][d] == 0);
                } else {
                    assert(f(u)[d] == u[d - 1]);
                    assert(strides2[i][d - 1] == strides[i][d]);
                    assert(t.insert(j, 0)[d] == t[d - 1]);
                }
            }
            assert(terms(f(u), strides[i]) =~= t.insert(j, 0));
            lemma_seq_sum_insert(t, j, 0);
        }
        assert(offsets(strides, f(u)) =~= offsets(strides2, u));
    }
    assert forall|u: Seq<int>, v: Seq<int>|
        within(shape2, u) && within(shape2, v) && #[trigger] f(u) == #[trigger] f(v) implies u
        == v by {
        assert(u =~= f(u).remove(j));
        assert(v =~= f(v).remove(j));
    }
    assert forall|x: Seq<int>| #[trigger] within(shape, x) implies exists|u: Seq<int>|
        within(shape2, u) && #[trigger] f(u) == x by {
        let u = x.remove(j);
        lemma_within_at(shape, x, j);
        assert(f(u) =~= x);
        assert forall|d: int| 0 <= d < u.len() implies 0 <= #[trigger] u[d] < shape2[d] by {
            if d < j {
                lemma_within_at(shape, x, d);
            } else {
                lemma_within_at(shape, x, d + 1);
            }
        }
    }
}

/// `s` with the entry at `i` moved to position `q`.
pub open spec fn moved<A>(s: Seq<A>, i: int, q: int) -> Seq<A> {
    s.remove(i).insert(q, s[i])
}

/// The layout with axis `i` moved to position `q`.
pub open spec fn moved_strides(strides: Seq<Seq<int>>, i: int, q: int) -> Seq<Seq<int>> {
    Seq::new(strides.len(), |o: int| moved(strides[o], i, q))
}

/// Changing entry `j` to `a` changes the sum by `a - s[j]`.
pub proof fn lemma_seq_sum_update(s: Seq<int>, j: int, a: int)
    requires
        0 <= j < s.len(),
    ensures
        seq_sum(s.update(j, a)) == seq_sum(s) - s[j] + a,
{
    lemma_seq_sum_remove(s, j);
    lemma_seq_sum_insert(s.remove(j), j, a);
    assert(s.update(j, a) =~= s.remove(j).insert(j, a));
}

/// Changing entry `j` to `a` scales the product as `a` does `s[j]`.
pub proof fn lemma_seq_prod_update(s: Seq<int>, j: int, a: int)
    requires
        0 <= j < s.len(),
    ensures
        seq_prod(s.update(j, a)) * s[j] == seq_prod(s) * a,
{
    lemma_seq_prod_remove(s, j);
    lemma_seq_prod_insert(s.remove(j), j, a);
    assert(s.update(j, a) =~= s.remove(j).insert(j, a));
    let r = seq_prod(s.remove(j));
    assert(r * a * s[j] == r * s[j] * a) by (nonlinear_arith);
}

/// Moving an axis walks the same elements.
#[verifier::rlimit(40)]
pub proof fn lemma_walks_same_move(shape: Seq<int>, strides: Seq<Seq<int>>, i: int, q: int)
    requires
        0 <= q <= i < shape.len(),
        well_shaped(shape, strides),
    ensures
        walks_same(
            shape,
            strides,
            moved(shape, i, q),
            moved_strides(strides, i, q),
            |u: Seq<int>| moved(u, q, i),
        ),
        well_shaped(moved(shape, i, q), moved_strides(strides, i, q)),
{
    let shape2 = moved(shape, i, q);
    let strides2 = moved_strides(strides, i, q);
    let f = |u: Seq<int>| moved(u, q, i);
    lemma_seq_prod_remove(shape, i);
    lemma_seq_prod_insert(shape.remove(i), q, shape[i]);
    assert forall|o: int| 0 <= o < strides2.len() implies #[trigger] strides2[o].len()
        == shape2.len() by {}
    assert forall|u: Seq<int>| within(shape2, u) implies within(shape, #[trigger] f(u)) && offsets(
        strides,
        f(u),
    ) == offsets(strides2, u) by {
        assert forall|d: int| 0 <= d < shape.len() implies 0 <= #[trigger] f(u)[d] < shape[d] by {
            if d < q {
                assert(f(u)[d] == u[d] && shape2[d] == shape[d]);
            } else if d < i {
                assert(f(u)[d] == u[d + 1] && shape2[d + 1] == shape[d]);
            } else if d == i {
                assert(f(u)[d] == u[q] && shape2[q] == shape[i]);
            } else {
                assert(f(u)[d] == u[d] && shape2[d] == shape[d]);
            }
        }
        assert forall|o: int| 0 <= o < strides.len() implies #[trigger] offsets(strides, f(u))[o]
            == offsets(strides2, u)[o] by {
            let s1 = strides[o];
            let t = terms(u, strides2[o]);
            assert(strides2[o] == moved(s1, i, q));
            assert forall|d: int| 0 <= d < shape.len() implies #[trigger] terms(f(u), s1)[d] == moved(
                t,
                q,
                i,
            )[d] by {
                assert(terms(f(u), s1)[d] == f(u)[d] * s1[d]);
                if d < q {
                    assert(f(u)[d] == u[d] && strides2[o][d] == s1[d] && moved(t, q, i)[d] == t[d]);
                } else if d < i {
                    assert(f(u)[d] == u[d + 1] && strides2[o][d + 1] == s1[d] && moved(t, q, i)[d]
                        == t[d + 1]);
                } else if d == i {
                    assert(f(u)[d] == u[q] && strides2[o][q] == s1[i] && moved(t, q, i)[d] == t[q]);
                } else {
                    assert(f(u)[d] == u[d] && strides2[o][d] == s1[d] && moved(t, q, i)[d] == t[d]);
                }
            }
            assert(terms(f(u), s1) =~= moved(t, q, i));
            lemma_seq_sum_remove(t, q);
            lemma_seq_sum_insert(t.remove(q), i, t[q]);
        }
        assert(offsets(strides, f(u)) =~= offsets(strides2, u));
    }
    assert forall|u: Seq<int>, v: Seq<int>|
        within(shape2, u) && within(shape2, v) && #[trigger] f(u) == #[trigger] f(v) implies u
        == v by {
        assert(moved(f(u), i, q) =~= u);
        assert(moved(f(v), i, q) =~= v);
    }
    assert forall|x: Seq<int>| #[trigger] within(shape, x) implies exists|u: Seq<int>|
        within(shape2, u) && #[trigger] f(u) == x by {
        lemma_move_reaches(shape, x, i, q);
        assert(f(moved(x, i, q)) == x);
    }
}

proof fn lemma_move_reaches(shape: Seq<int>, x: Seq<int>, i: int, q: int)
    requires
        0 <= q <= i < shape.len(),
        within(shape, x),
    ensures
        within(moved(shape, i, q), moved(x, i, q)),
        moved(moved(x, i, q), q, i) == x,
{
    let u = moved(x, i, q);
    let shape2 = moved(shape, i, q);
    assert(moved(u, q, i) =~= x);
    assert forall|d: int| 0 <= d < u.len() implies 0 <= #[trigger] u[d] < shape2[d] by {
        if d < q {
            lemma_within_at(shape, x, d);
        } else if d == q {
            lemma_within_at(shape, x, i);
        } else if d <= i {
            lemma_within_at(shape, x, d - 1);
        } else {
            lemma_within_at(shape, x, d);
        }
    }
}

/// `u` with the index `u[j]` of a merged axis split into its outer and inner indices.
pub open spec fn split_index(u: Seq<int>, j: int, n: int) -> Seq<int> {
    u.update(j, u[j] / n).insert(j + 1, u[j] % n)
}

/// The shape with axes `j` and `j + 1` merged into one.
pub open spec fn merged_shape(shape: Seq<int>, j: int) -> Seq<int> {
    shape.update(j, shape[j] * shape[j + 1]).remove(j + 1)
}

/// The strides with axes `j` and `j + 1` merged into one, which takes the inner stride.
pub open spec fn merged_strides(strides: Seq<Seq<int>>, j: int) -> Seq<Seq<int>> {
    Seq::new(strides.len(), |o: int| strides[o].update(j, strides[o][j + 1]).remove(j + 1))
}

/// Axes `j` and `j + 1` can merge: for every operand the outer stride is the inner stride times
/// the inner length.
pub open spec fn mergeable(shape: Seq<int>, strides: Seq<Seq<int>>, j: int) -> bool {
    forall|o: int| 0 <= o < strides.len() ==> #[trigger] strides[o][j] == strides[o][j + 1] * shape[j + 1]
}

/// Merging two adjacent axes whose strides chain walks the same elements.
pub proof fn lemma_walks_same_merge(shape: Seq<int>, strides: Seq<Seq<int>>, j: int)
    requires
        0 <= j,
        j + 1 < shape.len(),
        shape[j] >= 0,
        shape[j + 1] >= 1,
        well_shaped(shape, strides),
        mergeable(shape, strides, j),
    ensures
        walks_same(
            shape,
            strides,
            merged_shape(shape, j),
            merged_strides(strides, j),
            |u: Seq<int>| split_index(u, j, shape[j + 1]),
        ),
        well_shaped(merged_shape(shape, j), merged_strides(strides, j)),
{
    let n = shape[j + 1];
    let shape2 = merged_shape(shape, j);
    let strides2 = merged_strides(strides, j);
    let f = |u: Seq<int>| split_index(u, j, n);
    // volume
    lemma_seq_prod_remove(shape, j + 1);
    let r = shape.remove(j + 1);
    assert(shape.update(j, shape[j] * n).remove(j + 1) =~= r.update(j, shape[j] * n));
    lemma_seq_prod_update(r, j, shape[j] * n);
    let pr = seq_prod(r);
    let pu = seq_prod(r.update(j, shape[j] * n));
    assert(pu * shape[j] == pr * (shape[j] * n));
    if shape[j] == 0 {
        lemma_seq_prod_update(r, j, 0);
        assert(r.update(j, shape[j] * n) =~= r.update(j, 0));
        lemma_seq_prod_update(shape, j + 1, 0);
        assert(r =~= r.update(j, 0));
        assert(pr * 0 == 0);
        lemma_seq_prod_zero(r, j);
        assert(pu == 0);
        assert(pr == 0);
    } else {
        assert(pu == pr * n) by (nonlinear_arith)
            requires
                pu * shape[j] == pr * (shape[j] * n),
                shape[j] >= 1,
        ;
    }
    assert forall|o: int| 0 <= o < strides2.len() implies #[trigger] strides2[o].len()
        == shape2.len() by {}
    assert forall|u: Seq<int>| within(shape2, u) implies within(shape, #[trigger] f(u)) && offsets(
        strides,
        f(u),
    ) == offsets(strides2, u) by {
        let x = u[j];
        assert(0 <= x < shape[j] * n);
        assert(0 <= x / n < shape[j]) by (nonlinear_arith)
            requires
                0 <= x < shape[j] * n,
                n >= 1,
        ;
        assert forall|d: int| 0 <= d < shape.len() implies 0 <= #[trigger] f(u)[d] < shape[d] by {
            if d < j {
                assert(f(u)[d] == u[d] && shape2[d] == shape[d]);
            } else if d == j {
            } else if d == j + 1 {
            } else {
                assert(f(u)[d] == u[d - 1] && shape2[d - 1] == shape[d]);
            }
        }
        assert forall|o: int| 0 <= o < strides.len() implies #[trigger] offsets(strides, f(u))[o]
            == offsets(strides2, u)[o] by {
            let s1 = strides[o];
            let t = terms(u, strides2[o]);
            let a = (x / n) * s1[j];
            let b = (x % n) * s1[j + 1];
            assert(s1[j] == s1[j + 1] * n);
            assert(a + b == x * s1[j + 1]) by (nonlinear_arith)
                requires
                    a == (x / n) * s1[j],
                    b == (x % n) * s1[j + 1],
                    s1[j] == s1[j + 1] * n,
                    n >= 1,
            {
                vstd::arithmetic::div_mod::lemma_fundamental_div_mod(x, n);
            }
            assert(strides2[o][j] == s1[j + 1]);
            assert(t[j] == x * s1[j + 1]);
            assert forall|d: int| 0 <= d < shape.len() implies #[trigger] terms(f(u), s1)[d]
                == t.update(j, a).insert(j + 1, b)[d] by {
                assert(terms(f(u), s1)[d] == f(u)[d] * s1[d]);
                if d < j {
                    assert(f(u)[d] == u[d] && strides2[o][d] == s1[d]);
                } else if d == j {
                } else if d == j + 1 {
                } else {
                    assert(f(u)[d] == u[d - 1] && strides2[o][d - 1] == s1[d]);
                }
            }
            assert(terms(f(u), s1) =~= t.update(j, a).insert(j + 1, b));
            lemma_seq_sum_update(t, j, a);
            lemma_seq_sum_insert(t.update(j, a), j + 1, b);
        }
        assert(offsets(strides, f(u)) =~= offsets(strides2, u));
    }
    assert forall|u: Seq<int>, v: Seq<int>|
        within(shape2, u) && within(shape2, v) && #[trigger] f(u) == #[trigger] f(v) implies u
        == v by {
        assert(f(u)[j] == f(v)[j] && f(u)[j + 1] == f(v)[j + 1]);
        vstd::arithmetic::div_mod::lemma_fundamental_div_mod(u[j], n);
        vstd::arithmetic::div_mod::lemma_fundamental_div_mod(v[j], n);
        assert(u[j] == v[j]);
        assert forall|d: int| 0 <= d < u.len() implies u[d] == v[d] by {
            if d < j {
                assert(f(u)[d] == u[d] && f(v)[d] == v[d]);
            } else if d > j {
                assert(f(u)[d + 1] == u[d] && f(v)[d + 1] == v[d]);
            }
        }
        assert(u =~= v);
    }
    assert forall|x: Seq<int>| #[trigger] within(shape, x) implies exists|u: Seq<int>|
        within(shape2, u) && #[trigger] f(u) == x by {
        lemma_within_at(shape, x, j);
        lemma_within_at(shape, x, j + 1);
        let a = x[j];
        let b = x[j + 1];
        let y = a * n + b;
        assert(0 <= y < shape[j] * n) by (nonlinear_arith)
            requires
                0 <= a < shape[j],
                0 <= b < n,
                y == a * n + b,
        ;
        vstd::arithmetic::div_mod::lemma_fundamental_div_mod_converse(y, n, a, b);
        let u = x.update(j, y).remove(j + 1);
        assert(f(u) =~= x);
        assert forall|d: int| 0 <= d < u.len() implies 0 <= #[trigger] u[d] < shape2[d] by {
            if d < j {
                lemma_within_at(shape, x, d);
            } else if d > j {
                lemma_within_at(shape, x, d + 1);
            }
        }
    }
}

/// A product with a zero entry is zero.
pub proof fn lemma_seq_prod_zero(s: Seq<int>, j: int)
    requires
        0 <= j < s.len(),
        s[j] == 0,
    ensures
        seq_prod(s) == 0,
{
    lemma_seq_prod_remove(s, j);
}

/// A product of entries that are all at least 1 is at least 1.
pub proof fn lemma_seq_prod_pos(s: Seq<int>)
    requires
        forall|d: int| 0 <= d < s.len() ==> #[trigger] s[d] >= 1,
    ensures
        seq_prod(s) >= 1,
    decreases s.len(),
{
    if s.len() > 0 {
        lemma_seq_prod_pos(s.drop_last());
        let p = seq_prod(s.drop_last());
        assert(p * s.last() >= 1) by (nonlinear_arith)
            requires
                p >= 1,
                s.last() >= 1,
        ;
    }
}

/// Two adjacent entries of a product of entries that are all at least 1 multiply to at most the
/// product.
pub proof fn lemma_seq_prod_pair(s: Seq<int>, j: int)
    requires
        0 <= j,
        j + 1 < s.len(),
        forall|d: int| 0 <= d < s.len() ==> #[trigger] s[d] >= 1,
    ensures
        s[j] * s[j + 1] <= seq_prod(s),
{
    lemma_seq_prod_remove(s, j + 1);
    let r = s.remove(j + 1);
    lemma_seq_prod_remove(r, j);
    let rr = r.remove(j);
    lemma_seq_prod_pos(rr);
    let p = seq_prod(rr);
    assert(r[j] == s[j]);
    assert(s[j] * s[j + 1] <= p * s[j] * s[j + 1]) by (nonlinear_arith)
        requires
            p >= 1,
            s[j] >= 1,
            s[j + 1] >= 1,
    ;
}

/// A layout with no axis walks the same single element as one axis of length 1, whatever its
/// strides.
pub proof fn lemma_walks_same_unit(strides: Seq<Seq<int>>, unit: Seq<Seq<int>>)
    requires
        forall|o: int| 0 <= o < strides.len() ==> #[trigger] strides[o].len() == 0,
        unit.len() == strides.len(),
        forall|o: int| 0 <= o < unit.len() ==> #[trigger] unit[o].len() == 1,
    ensures
        walks_same(Seq::<int>::empty(), strides, seq![1int], unit, |u: Seq<int>| Seq::<int>::empty()),
{
    let f = |u: Seq<int>| Seq::<int>::empty();
    assert(seq![1int].drop_last() =~= Seq::<int>::empty());
    assert(seq_prod(Seq::<int>::empty()) == 1);
    assert(seq![1int].last() == 1);
    assert(seq_prod(seq![1int]) == 1);
    assert forall|u: Seq<int>| within(seq![1int], u) implies within(Seq::<int>::empty(), #[trigger] f(u))
        && offsets(strides, f(u)) == offsets(unit, u) by {
        assert forall|o: int| 0 <= o < strides.len() implies #[trigger] offsets(strides, f(u))[o]
            == offsets(unit, u)[o] by {
            assert(terms(f(u), strides[o]) =~= Seq::<int>::empty());
            assert(u[0] == 0);
            assert(terms(u, unit[o]) =~= seq![0int]);
            assert(seq![0int].drop_last() =~= Seq::<int>::empty());
        }
        assert(offsets(strides, f(u)) =~= offsets(unit, u));
    }
    assert forall|u: Seq<int>, v: Seq<int>|
        within(seq![1int], u) && within(seq![1int], v) && #[trigger] f(u) == #[trigger] f(v)
        implies u == v by {
        assert(u =~= v);
    }
    assert forall|x: Seq<int>| #[trigger] within(Seq::<int>::empty(), x) implies exists|u: Seq<int>|
        within(seq![1int], u) && #[trigger] f(u) == x by {
        let u = seq![0int];
        assert(f(u) =~= x);
        assert(within(seq![1int], u));
    }
}

proof fn lemma_within_at(shape: Seq<int>, u: Seq<int>, j: int)
    requires
        within(shape, u),
        0 <= j < shape.len(),
    ensures
        0 <= u[j] < shape[j],
{
}

/// Two layouts with no index at all walk the same (no) elements.
pub proof fn lemma_walks_same_empty(
    shape1: Seq<int>,
    strides1: Seq<Seq<int>>,
    shape2: Seq<int>,
    strides2: Seq<Seq<int>>,
    f: spec_fn(Seq<int>) -> Seq<int>,
    j1: int,
    j: int,
)
    requires
        0 <= j1 < shape1.len(),
        shape1[j1] == 0,
        strides1.len() == strides2.len(),
        0 <= j < shape2.len(),
        shape2[j] == 0,
    ensures
        walks_same(shape1, strides1, shape2, strides2, f),
{
    lemma_seq_prod_zero(shape2, j);
    assert forall|u: Seq<int>| within(shape2, u) implies within(shape1, #[trigger] f(u)) && offsets(
        strides1,
        f(u),
    ) == offsets(strides2, u) by {
        lemma_within_at(shape2, u, j);
    }
    assert forall|u: Seq<int>, v: Seq<int>|
        within(shape2, u) && within(shape2, v) && #[trigger] f(u) == #[trigger] f(v) implies u
        == v by {
        lemma_within_at(shape2, u, j);
    }
    lemma_seq_prod_zero(shape1, j1);
    assert forall|x: Seq<int>| #[trigger] within(shape1, x) implies exists|u: Seq<int>|
        within(shape2, u) && #[trigger] f(u) == x by {
        lemma_within_at(shape1, x, j1);
    }
}

} // verus!

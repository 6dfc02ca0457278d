//! Mathematical model of a strided, row-major index space.
//!
//! Index tuples, extents and strides are sequences of integers; axis 0 is the
//! most significant axis.
use vstd::arithmetic::div_mod::lemma_fundamental_div_mod_converse;
use vstd::prelude::*;

verus! {

/// Number of elements of an index space: the product of its extents.
pub open spec fn size(shape: Seq<int>) -> int
    decreases shape.len(),
{
    if shape.len() == 0 {
        1
    } else {
        shape[0] * size(shape.drop_first())
    }
}

/// Sum of `x[i] * s[i]` over the common axes.
pub open spec fn dot(x: Seq<int>, s: Seq<int>) -> int
    decreases x.len(),
{
    if x.len() == 0 || s.len() == 0 {
        0
    } else {
        x[0] * s[0] + dot(x.drop_first(), s.drop_first())
    }
}

/// Row-major position of an index tuple: axis 0 varies slowest.
pub open spec fn rank(shape: Seq<int>, idx: Seq<int>) -> int
    decreases shape.len(),
{
    if shape.len() == 0 || idx.len() == 0 {
        0
    } else {
        idx[0] * size(shape.drop_first()) + rank(shape.drop_first(), idx.drop_first())
    }
}

/// The index tuple at row-major position `k`.
pub open spec fn unrank(shape: Seq<int>, k: int) -> Seq<int>
    decreases shape.len(),
{
    if shape.len() == 0 {
        Seq::empty()
    } else {
        let p = size(shape.drop_first());
        seq![k / p] + unrank(shape.drop_first(), k % p)
    }
}

pub open spec fn nonneg(s: Seq<int>) -> bool {
    forall|i: int| 0 <= i < s.len() ==> 0 <= #[trigger] s[i]
}

/// `idx` addresses an element of an index space of extents `shape`.
pub open spec fn in_bounds(shape: Seq<int>, idx: Seq<int>) -> bool {
    &&& idx.len() == shape.len()
    &&& forall|i: int| 0 <= i < idx.len() ==> 0 <= #[trigger] idx[i] < shape[i]
}

/// Strict lexicographic order of index tuples, axis 0 first.
pub open spec fn lex_less(x: Seq<int>, y: Seq<int>) -> bool
    decreases x.len(),
{
    x.len() > 0 && y.len() > 0 && (x[0] < y[0] || (x[0] == y[0] && lex_less(
        x.drop_first(),
        y.drop_first(),
    )))
}

/// The largest index tuple of an index space.
pub open spec fn last_index(shape: Seq<int>) -> Seq<int> {
    Seq::new(shape.len(), |i: int| shape[i] - 1)
}

pub open spec fn zeros(n: nat) -> Seq<int> {
    Seq::new(n, |i: int| 0)
}

/// Strides of a contiguous row-major layout of extents `shape`.
pub open spec fn row_major(shape: Seq<int>) -> Seq<int> {
    Seq::new(shape.len(), |i: int| size(shape.subrange(i + 1, shape.len() as int)))
}

pub open spec fn ints(s: Seq<usize>) -> Seq<int> {
    s.map_values(|v: usize| v as int)
}

pub proof fn lemma_size_nonneg(shape: Seq<int>)
    requires
        nonneg(shape),
    ensures
        size(shape) >= 0,
    decreases shape.len(),
{
    if shape.len() > 0 {
        lemma_size_nonneg(shape.drop_first());
        let p = size(shape.drop_first());
        assert(shape[0] * p >= 0) by (nonlinear_arith)
            requires
                shape[0] >= 0,
                p >= 0,
        ;
    }
}

/// An index space is non-empty exactly when every extent is positive.
pub proof fn lemma_size_pos(shape: Seq<int>)
    requires
        nonneg(shape),
    ensures
        size(shape) > 0 <==> (forall|i: int| 0 <= i < shape.len() ==> #[trigger] shape[i] > 0),
    decreases shape.len(),
{
    if shape.len() > 0 {
        let t = shape.drop_first();
        lemma_size_pos(t);
        lemma_size_nonneg(t);
        let p = size(t);
        assert(shape[0] * p > 0 <==> (shape[0] > 0 && p > 0)) by (nonlinear_arith)
            requires
                shape[0] >= 0,
                p >= 0,
        ;
        if size(shape) > 0 {
            assert forall|i: int| 0 <= i < shape.len() implies #[trigger] shape[i] > 0 by {
                if i > 0 {
                    assert(t[i - 1] == shape[i]);
                }
            }
        }
        if forall|i: int| 0 <= i < shape.len() ==> #[trigger] shape[i] > 0 {
            assert forall|i: int| 0 <= i < t.len() implies #[trigger] t[i] > 0 by {
                assert(shape[i + 1] > 0);
            }
        }
    }
}

/// Every in-bounds index tuple has a position below the size.
pub proof fn lemma_rank_bounds(shape: Seq<int>, idx: Seq<int>)
    requires
        in_bounds(shape, idx),
    ensures
        0 <= rank(shape, idx) < size(shape),
    decreases shape.len(),
{
    if shape.len() > 0 {
        let t = shape.drop_first();
        let u = idx.drop_first();
        assert(in_bounds(t, u)) by {
            assert forall|i: int| 0 <= i < u.len() implies 0 <= #[trigger] u[i] < t[i] by {
                assert(idx[i + 1] < shape[i + 1]);
            }
        }
        lemma_rank_bounds(t, u);
        let p = size(t);
        let r = rank(t, u);
        assert(idx[0] < shape[0] && 0 <= idx[0]);
        assert(0 <= idx[0] * p + r < shape[0] * p) by (nonlinear_arith)
            requires
                0 <= idx[0] < shape[0],
                0 <= r < p,
        ;
    }
}

/// Row-major positions identify in-bounds index tuples.
pub proof fn lemma_unrank_rank(shape: Seq<int>, idx: Seq<int>)
    requires
        in_bounds(shape, idx),
    ensures
        unrank(shape, rank(shape, idx)) == idx,
    decreases shape.len(),
{
    if shape.len() > 0 {
        let t = shape.drop_first();
        let u = idx.drop_first();
        assert(in_bounds(t, u)) by {
            assert forall|i: int| 0 <= i < u.len() implies 0 <= #[trigger] u[i] < t[i] by {
                assert(idx[i + 1] < shape[i + 1]);
            }
        }
        lemma_rank_bounds(t, u);
        lemma_unrank_rank(t, u);
        let p = size(t);
        let r = rank(t, u);
        let k = idx[0] * p + r;
        lemma_fundamental_div_mod_converse(k, p, idx[0], r);
        assert(unrank(shape, k) =~= idx);
    }
}

/// Each position below the size names an in-bounds index tuple.
pub proof fn lemma_rank_unrank(shape: Seq<int>, k: int)
    requires
        nonneg(shape),
        0 <= k < size(shape),
    ensures
        in_bounds(shape, unrank(shape, k)),
        rank(shape, unrank(shape, k)) == k,
    decreases shape.len(),
{
    if shape.len() > 0 {
        let t = shape.drop_first();
        let p = size(t);
        lemma_size_nonneg(t);
        assert(size(shape) == shape[0] * p);
        assert(p > 0) by (nonlinear_arith)
            requires
                shape[0] * p > 0,
                p >= 0,
        ;
        let q = k / p;
        let r = k % p;
        assert(k == q * p + r && 0 <= r < p) by (nonlinear_arith)
            requires
                p > 0,
                q == k / p,
                r == k % p,
        ;
        assert(0 <= q < shape[0]) by (nonlinear_arith)
            requires
                p > 0,
                k == q * p + r,
                0 <= r < p,
                0 <= k < shape[0] * p,
        ;
        lemma_rank_unrank(t, r);
        let x = unrank(shape, k);
        assert(x.drop_first() =~= unrank(t, r));
        assert forall|i: int| 0 <= i < x.len() implies 0 <= #[trigger] x[i] < shape[i] by {
            if i > 0 {
                assert(x[i] == unrank(t, r)[i - 1]);
            }
        }
    }
}

/// Row-major enumeration visits index tuples in strictly increasing
/// lexicographic order.
pub proof fn lemma_unrank_ordered(shape: Seq<int>, j: int, k: int)
    requires
        nonneg(shape),
        0 <= j < k < size(shape),
    ensures
        lex_less(unrank(shape, j), unrank(shape, k)),
    decreases shape.len(),
{
    assert(shape.len() > 0);
    let t = shape.drop_first();
    let p = size(t);
    lemma_size_nonneg(t);
    assert(size(shape) == shape[0] * p);
    assert(p > 0) by (nonlinear_arith)
        requires
            shape[0] * p > 0,
            p >= 0,
    ;
    assert(j / p <= k / p) by (nonlinear_arith)
        requires
            p > 0,
            j < k,
    ;
    let x = unrank(shape, j);
    let y = unrank(shape, k);
    assert(x.drop_first() =~= unrank(t, j % p));
    assert(y.drop_first() =~= unrank(t, k % p));
    if j / p == k / p {
        assert(j % p < k % p && 0 <= j % p && k % p < p) by (nonlinear_arith)
            requires
                p > 0,
                j < k,
                j / p == k / p,
                0 <= j,
        ;
        lemma_unrank_ordered(t, j % p, k % p);
    }
}

pub proof fn lemma_dot_nonneg(x: Seq<int>, s: Seq<int>)
    requires
        nonneg(x),
        nonneg(s),
    ensures
        dot(x, s) >= 0,
    decreases x.len(),
{
    if x.len() > 0 && s.len() > 0 {
        lemma_dot_nonneg(x.drop_first(), s.drop_first());
        assert(x[0] * s[0] >= 0) by (nonlinear_arith)
            requires
                x[0] >= 0,
                s[0] >= 0,
        ;
    }
}

/// `dot` splits over concatenation.
pub proof fn lemma_dot_split(x1: Seq<int>, x2: Seq<int>, s1: Seq<int>, s2: Seq<int>)
    requires
        x1.len() == s1.len(),
    ensures
        dot(x1 + x2, s1 + s2) == dot(x1, s1) + dot(x2, s2),
    decreases x1.len(),
{
    if x1.len() > 0 {
        lemma_dot_split(x1.drop_first(), x2, s1.drop_first(), s2);
        assert((x1 + x2).drop_first() =~= x1.drop_first() + x2);
        assert((s1 + s2).drop_first() =~= s1.drop_first() + s2);
    } else {
        assert(x1 + x2 =~= x2);
        assert(s1 + s2 =~= s2);
    }
}

/// Extending both sequences by one axis adds that axis's term.
pub proof fn lemma_dot_take(x: Seq<int>, s: Seq<int>, i: int)
    requires
        x.len() == s.len(),
        0 <= i < x.len(),
    ensures
        dot(x.take(i + 1), s.take(i + 1)) == dot(x.take(i), s.take(i)) + x[i] * s[i],
{
    lemma_dot_split(x.take(i), seq![x[i]], s.take(i), seq![s[i]]);
    assert(x.take(i) + seq![x[i]] =~= x.take(i + 1));
    assert(s.take(i) + seq![s[i]] =~= s.take(i + 1));
    assert(dot(seq![x[i]], seq![s[i]]) == x[i] * s[i]) by {
        assert(dot(seq![x[i]].drop_first(), seq![s[i]].drop_first()) == 0);
    }
}

/// A prefix of the terms is at most the whole sum.
pub proof fn lemma_dot_prefix(x: Seq<int>, s: Seq<int>, i: int)
    requires
        x.len() == s.len(),
        0 <= i <= x.len(),
        nonneg(x),
        nonneg(s),
    ensures
        0 <= dot(x.take(i), s.take(i)) <= dot(x, s),
{
    lemma_dot_split(x.take(i), x.skip(i), s.take(i), s.skip(i));
    assert(x.take(i) + x.skip(i) =~= x);
    assert(s.take(i) + s.skip(i) =~= s);
    lemma_dot_nonneg(x.take(i), s.take(i));
    lemma_dot_nonneg(x.skip(i), s.skip(i));
}

/// `dot` is monotone in its first argument over non-negative strides.
pub proof fn lemma_dot_mono(x: Seq<int>, y: Seq<int>, s: Seq<int>)
    requires
        x.len() == y.len(),
        nonneg(s),
        forall|i: int| 0 <= i < x.len() ==> 0 <= #[trigger] x[i] <= y[i],
    ensures
        dot(x, s) <= dot(y, s),
    decreases x.len(),
{
    if x.len() > 0 && s.len() > 0 {
        assert forall|i: int| 0 <= i < x.len() - 1 implies 0 <= #[trigger] x.drop_first()[i]
            <= y.drop_first()[i] by {
            assert(x[i + 1] <= y[i + 1]);
        }
        lemma_dot_mono(x.drop_first(), y.drop_first(), s.drop_first());
        assert(x[0] * s[0] <= y[0] * s[0]) by (nonlinear_arith)
            requires
                x[0] <= y[0],
                s[0] >= 0,
        ;
    }
}

/// `dot` is additive in its first argument.
pub proof fn lemma_dot_add(x: Seq<int>, y: Seq<int>, s: Seq<int>)
    requires
        x.len() == y.len(),
    ensures
        dot(x, s) + dot(y, s) == dot(Seq::new(x.len(), |i: int| x[i] + y[i]), s),
    decreases x.len(),
{
    let z = Seq::new(x.len(), |i: int| x[i] + y[i]);
    if x.len() > 0 && s.len() > 0 {
        lemma_dot_add(x.drop_first(), y.drop_first(), s.drop_first());
        assert(z.drop_first() =~= Seq::new(
            x.drop_first().len(),
            |i: int| x.drop_first()[i] + y.drop_first()[i],
        ));
        assert((x[0] + y[0]) * s[0] == x[0] * s[0] + y[0] * s[0]) by (nonlinear_arith);
    }
}

/// Changing one coordinate changes `dot` by that coordinate's term.
pub proof fn lemma_dot_update(x: Seq<int>, s: Seq<int>, i: int, v: int)
    requires
        x.len() == s.len(),
        0 <= i < x.len(),
    ensures
        dot(x.update(i, v), s) == dot(x, s) + (v - x[i]) * s[i],
    decreases x.len(),
{
    if i == 0 {
        assert(x.update(0, v).drop_first() =~= x.drop_first());
        assert(v * s[0] == x[0] * s[0] + (v - x[0]) * s[0]) by (nonlinear_arith);
    } else {
        lemma_dot_update(x.drop_first(), s.drop_first(), i - 1, v);
        assert(x.update(i, v).drop_first() =~= x.drop_first().update(i - 1, v));
    }
}

pub proof fn lemma_dot_zeros(n: nat, s: Seq<int>)
    ensures
        dot(zeros(n), s) == 0,
    decreases n,
{
    if n > 0 && s.len() > 0 {
        assert(zeros(n).drop_first() =~= zeros((n - 1) as nat));
        lemma_dot_zeros((n - 1) as nat, s.drop_first());
        assert(zeros(n)[0] == 0);
    }
}

/// Under row-major strides, the offset of an index tuple is its position.
pub proof fn lemma_row_major_rank(shape: Seq<int>, x: Seq<int>)
    requires
        x.len() == shape.len(),
    ensures
        dot(x, row_major(shape)) == rank(shape, x),
    decreases shape.len(),
{
    if shape.len() > 0 {
        let t = shape.drop_first();
        let n = shape.len() as int;
        assert(row_major(shape).drop_first() =~= row_major(t)) by {
            assert forall|i: int| 0 <= i < n - 1 implies #[trigger] row_major(shape).drop_first()[i]
                == row_major(t)[i] by {
                assert(shape.subrange(i + 2, n) =~= t.subrange(i + 1, n - 1));
            }
        }
        assert(shape.subrange(1, n) =~= t);
        lemma_row_major_rank(t, x.drop_first());
    }
}

/// The largest index tuple sits at the last position.
pub proof fn lemma_rank_last(shape: Seq<int>)
    requires
        forall|i: int| 0 <= i < shape.len() ==> #[trigger] shape[i] > 0,
    ensures
        rank(shape, last_index(shape)) == size(shape) - 1,
    decreases shape.len(),
{
    if shape.len() > 0 {
        let t = shape.drop_first();
        assert(last_index(shape).drop_first() =~= last_index(t));
        assert forall|i: int| 0 <= i < t.len() implies #[trigger] t[i] > 0 by {
            assert(shape[i + 1] > 0);
        }
        lemma_rank_last(t);
        let p = size(t);
        assert((shape[0] - 1) * p + p - 1 == shape[0] * p - 1) by (nonlinear_arith);
    }
}

pub proof fn lemma_rank_zeros(shape: Seq<int>)
    ensures
        rank(shape, zeros(shape.len())) == 0,
    decreases shape.len(),
{
    if shape.len() > 0 {
        assert(zeros(shape.len()).drop_first() =~= zeros(shape.drop_first().len()));
        lemma_rank_zeros(shape.drop_first());
        assert(zeros(shape.len())[0] == 0);
    }
}

pub proof fn lemma_size_split(s1: Seq<int>, s2: Seq<int>)
    ensures
        size(s1 + s2) == size(s1) * size(s2),
    decreases s1.len(),
{
    if s1.len() > 0 {
        lemma_size_split(s1.drop_first(), s2);
        assert((s1 + s2).drop_first() =~= s1.drop_first() + s2);
        let a = s1[0];
        let b = size(s1.drop_first());
        let c = size(s2);
        assert(a * (b * c) == (a * b) * c) by (nonlinear_arith);
    } else {
        assert(s1 + s2 =~= s2);
    }
}

/// Position over concatenated index spaces: the leading part is the more
/// significant one.
pub proof fn lemma_rank_split(s1: Seq<int>, s2: Seq<int>, x1: Seq<int>, x2: Seq<int>)
    requires
        x1.len() == s1.len(),
        x2.len() == s2.len(),
    ensures
        rank(s1 + s2, x1 + x2) == rank(s1, x1) * size(s2) + rank(s2, x2),
    decreases s1.len(),
{
    if s1.len() > 0 {
        let t1 = s1.drop_first();
        lemma_rank_split(t1, s2, x1.drop_first(), x2);
        assert((s1 + s2).drop_first() =~= t1 + s2);
        assert((x1 + x2).drop_first() =~= x1.drop_first() + x2);
        lemma_size_split(t1, s2);
        let a = x1[0];
        let b = size(t1);
        let c = size(s2);
        let r = rank(t1, x1.drop_first());
        assert(a * (b * c) + r * c == (a * b + r) * c) by (nonlinear_arith);
    } else {
        assert(s1 + s2 =~= s2);
        assert(x1 + x2 =~= x2);
    }
}

pub proof fn lemma_rank_single(a: int, b: int)
    ensures
        size(seq![a]) == a,
        rank(seq![a], seq![b]) == b,
{
    assert(seq![a].drop_first() =~= Seq::<int>::empty());
    assert(seq![b].drop_first() =~= Seq::<int>::empty());
    assert(size(Seq::<int>::empty()) == 1);
    assert(rank(Seq::<int>::empty(), Seq::<int>::empty()) == 0);
}

/// One odometer step: the digit at `ax` goes up by one and every less
/// significant digit wraps from its largest value to zero.
pub proof fn lemma_odometer(s: Seq<int>, o: Seq<int>, n: Seq<int>, ax: int)
    requires
        o.len() == s.len(),
        n.len() == s.len(),
        0 <= ax < s.len(),
        forall|i: int| 0 <= i < ax ==> #[trigger] n[i] == o[i],
        n[ax] == o[ax] + 1,
        forall|i: int| ax < i < s.len() ==> #[trigger] n[i] == 0 && o[i] == s[i] - 1 && s[i] > 0,
    ensures
        rank(s, n) == rank(s, o) + 1,
{
    let len = s.len() as int;
    let s1 = s.take(ax + 1);
    let s2 = s.skip(ax + 1);
    assert(s1 + s2 =~= s);
    assert(o.take(ax + 1) + o.skip(ax + 1) =~= o);
    assert(n.take(ax + 1) + n.skip(ax + 1) =~= n);
    lemma_rank_split(s1, s2, o.take(ax + 1), o.skip(ax + 1));
    lemma_rank_split(s1, s2, n.take(ax + 1), n.skip(ax + 1));
    assert forall|i: int| 0 <= i < s2.len() implies #[trigger] o.skip(ax + 1)[i] == last_index(
        s2,
    )[i] by {
        assert(n[ax + 1 + i] == 0);
    }
    assert(o.skip(ax + 1) =~= last_index(s2));
    assert(n.skip(ax + 1) =~= zeros(s2.len()));
    assert forall|i: int| 0 <= i < s2.len() implies #[trigger] s2[i] > 0 by {
        assert(n[ax + 1 + i] == 0);
    }
    lemma_rank_last(s2);
    lemma_rank_zeros(s2);
    let p = s.take(ax);
    let a = s[ax];
    assert(p + seq![a] =~= s1);
    assert(o.take(ax) + seq![o[ax]] =~= o.take(ax + 1));
    assert(o.take(ax) + seq![n[ax]] =~= n.take(ax + 1));
    assert(n.take(ax) =~= o.take(ax));
    lemma_rank_split(p, seq![a], o.take(ax), seq![o[ax]]);
    lemma_rank_split(p, seq![a], o.take(ax), seq![n[ax]]);
    lemma_rank_single(a, o[ax]);
    lemma_rank_single(a, n[ax]);
    let r1 = rank(s1, o.take(ax + 1));
    let z = size(s2);
    assert((r1 + 1) * z == r1 * z + (z - 1) + 1) by (nonlinear_arith);
}

/// With every digit but the first in range, the tuple is in bounds exactly
/// when its position is below the size.
pub proof fn lemma_in_bounds_rank(s: Seq<int>, x: Seq<int>)
    requires
        s.len() >= 1,
        x.len() == s.len(),
        nonneg(s),
        x[0] >= 0,
        forall|i: int| 1 <= i < s.len() ==> 0 <= #[trigger] x[i] < s[i],
    ensures
        in_bounds(s, x) <==> rank(s, x) < size(s),
{
    let t = s.drop_first();
    let u = x.drop_first();
    assert(in_bounds(t, u)) by {
        assert forall|i: int| 0 <= i < u.len() implies 0 <= #[trigger] u[i] < t[i] by {
            assert(x[i + 1] < s[i + 1]);
        }
    }
    lemma_rank_bounds(t, u);
    let p = size(t);
    let r = rank(t, u);
    if x[0] < s[0] {
        assert(x[0] * p + r < s[0] * p) by (nonlinear_arith)
            requires
                0 <= x[0] < s[0],
                0 <= r < p,
        ;
    } else {
        assert(x[0] * p + r >= s[0] * p) by (nonlinear_arith)
            requires
                x[0] >= s[0],
                0 <= r < p,
        ;
    }
}

} // verus!

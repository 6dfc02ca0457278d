//! Properties that relate the traversals to one another and to the array.
use crate::array::{slab_starts, ArrayModel};
use crate::model::{
    in_bounds, lemma_dot_update, lemma_dot_zeros, lemma_rank_bounds, lemma_rank_unrank,
    lemma_size_nonneg, lemma_size_pos, lemma_unrank_ordered, lemma_unrank_rank, lex_less, nonneg, rank,
    size, unrank, zeros,
};
use vstd::arithmetic::div_mod::lemma_fundamental_div_mod_converse;
use vstd::prelude::*;

verus! {

/// The elements of several views, one view after another.
pub open spec fn concat_elements<T>(views: Seq<ArrayModel<T>>) -> Seq<T>
    decreases views.len(),
{
    if views.len() == 0 {
        Seq::empty()
    } else {
        concat_elements(views.drop_last()) + views.last().elements()
    }
}

/// Flat traversal yields elements in strictly increasing lexicographic order
/// of their index tuples, last axis fastest, each tuple in bounds.
pub proof fn flat_order<T>(a: ArrayModel<T>, j: int, k: int)
    requires
        a.wf(),
        0 <= j < k < a.elements().len(),
    ensures
        in_bounds(a.shape, unrank(a.shape, j)),
        in_bounds(a.shape, unrank(a.shape, k)),
        lex_less(unrank(a.shape, j), unrank(a.shape, k)),
        a.elements()[j] == a.at(unrank(a.shape, j)),
{
    lemma_size_nonneg(a.shape);
    lemma_rank_unrank(a.shape, j);
    lemma_rank_unrank(a.shape, k);
    lemma_unrank_ordered(a.shape, j, k);
}

/// Flat traversal yields the element of every in-bounds index tuple, at that
/// tuple's row-major position; there are as many elements as the product of
/// the extents.
pub proof fn flat_covers<T>(a: ArrayModel<T>, idx: Seq<int>)
    requires
        a.wf(),
        in_bounds(a.shape, idx),
    ensures
        a.elements().len() == size(a.shape),
        0 <= rank(a.shape, idx) < a.elements().len(),
        a.elements()[rank(a.shape, idx)] == a.at(idx),
{
    lemma_rank_bounds(a.shape, idx);
    lemma_unrank_rank(a.shape, idx);
}

/// The slab at position `k` of `axis` has the array's shape with extent 1 on
/// `axis`, the array's strides, and holds the array's elements with `axis`
/// fixed to `k`.
pub proof fn slab_elements<T>(a: ArrayModel<T>, axis: int, k: int, idx: Seq<int>)
    requires
        a.wf(),
        0 <= axis < a.shape.len(),
        0 <= k < a.shape[axis],
        in_bounds(a.slab(axis, k).shape, idx),
    ensures
        a.slab(axis, k).shape == a.shape.update(axis, 1),
        a.slab(axis, k).strides == a.strides,
        in_bounds(a.shape, idx.update(axis, k)),
        a.slab(axis, k).at(idx) == a.at(idx.update(axis, k)),
{
    let v = a.slab(axis, k);
    let n = a.shape.len();
    assert(v.shape =~= a.shape.update(axis, 1));
    assert forall|i: int| 0 <= i < n implies #[trigger] v.shape[i] > 0 by {
        assert(idx[i] < v.shape[i]);
    }
    lemma_size_pos(v.shape);
    assert(slab_starts(a.shape, axis, k) =~= zeros(n).update(axis, k));
    lemma_dot_update(zeros(n), a.strides, axis, k);
    lemma_dot_zeros(n, a.strides);
    assert(idx[axis] == 0);
    lemma_dot_update(idx, a.strides, axis, k);
    assert forall|i: int| 0 <= i < n implies 0 <= #[trigger] idx.update(axis, k)[i] < a.shape[i] by {
        if i != axis {
            assert(idx[i] < v.shape[i]);
        }
    }
}

/// Flattening each slab along axis 0, one after another, gives the array's
/// flat traversal.
pub proof fn slabs_reassemble<T>(a: ArrayModel<T>)
    requires
        a.wf(),
        a.shape.len() >= 1,
    ensures
        concat_elements(a.slabs(0)) == a.elements(),
{
    let p = size(a.shape.drop_first());
    let s0 = a.shape[0];
    lemma_size_nonneg(a.shape.drop_first());
    lemma_slabs_prefix(a, s0);
    assert(a.slabs(0).take(s0) =~= a.slabs(0));
    assert(a.elements().take(s0 * p) =~= a.elements());
}

/// The first `n` slabs along axis 0 hold the first `n` blocks of the flat
/// traversal.
proof fn lemma_slabs_prefix<T>(a: ArrayModel<T>, n: int)
    requires
        a.wf(),
        a.shape.len() >= 1,
        0 <= n <= a.shape[0],
    ensures
        concat_elements(a.slabs(0).take(n)) == a.elements().take(n * size(a.shape.drop_first())),
    decreases n,
{
    let t = a.shape.drop_first();
    let p = size(t);
    let s0 = a.shape[0];
    lemma_size_nonneg(t);
    let e = a.elements();
    let sl = a.slabs(0);
    if n == 0 {
        assert(sl.take(0) =~= Seq::<ArrayModel<T>>::empty());
        assert(e.take(0 * p) =~= Seq::<T>::empty());
    } else {
        let m = n - 1;
        lemma_slabs_prefix(a, m);
        assert(m * p + p == n * p) by (nonlinear_arith)
            requires
                m == n - 1,
        ;
        assert(n * p <= s0 * p) by (nonlinear_arith)
            requires
                n <= s0,
                p >= 0,
        ;
        assert(m * p >= 0) by (nonlinear_arith)
            requires
                m >= 0,
                p >= 0,
        ;
        assert(e.len() == s0 * p);
        let v = a.slab(0, m);
        assert(sl.take(n).drop_last() =~= sl.take(m));
        assert(sl.take(n).last() == v);
        assert(v.shape.drop_first() =~= t);
        assert(v.shape[0] == 1);
        assert(v.shape.len() > 0);
        assert(size(v.shape) == v.shape[0] * size(v.shape.drop_first()));
        assert(size(v.shape.drop_first()) == p);
        let w = v.shape[0];
        let q = size(v.shape.drop_first());
        assert(w * q == p) by (nonlinear_arith)
            requires
                w == 1,
                q == p,
        ;
        assert forall|j: int| 0 <= j < p implies #[trigger] v.elements()[j] == e[m * p + j] by {
            lemma_size_nonneg(v.shape);
            lemma_rank_unrank(v.shape, j);
            let u = unrank(v.shape, j);
            slab_elements(a, 0, m, u);
            lemma_fundamental_div_mod_converse(j, p, 0, j);
            lemma_fundamental_div_mod_converse(m * p + j, p, m, j);
            assert(u.update(0, m) =~= unrank(a.shape, m * p + j));
        }
        assert(v.elements() =~= e.subrange(m * p, n * p));
        assert(e.take(n * p) =~= e.take(m * p) + e.subrange(m * p, n * p));
    }
}

/// An array with an extent of 0 yields no element from flat traversal; every
/// slab along any axis is empty, and along the empty axis there are no slabs.
pub proof fn empty_array<T>(a: ArrayModel<T>, z: int, axis: int)
    requires
        a.wf(),
        0 <= z < a.shape.len(),
        a.shape[z] == 0,
        0 <= axis < a.shape.len(),
    ensures
        a.elements().len() == 0,
        forall|k: int| 0 <= k < a.slabs(axis).len() ==> (#[trigger] a.slabs(axis)[k]).elements().len()
            == 0,
        z == axis ==> a.slabs(axis).len() == 0,
{
    lemma_size_pos(a.shape);
    lemma_size_nonneg(a.shape);
    assert(!(a.shape[z] > 0));
    assert forall|k: int| 0 <= k < a.slabs(axis).len() implies (#[trigger] a.slabs(
        axis,
    )[k]).elements().len() == 0 by {
        let v = a.slab(axis, k);
        assert(v.shape =~= a.shape.update(axis, 1));
        assert(nonneg(v.shape));
        assert(!(v.shape[z] > 0));
        lemma_size_pos(v.shape);
        lemma_size_nonneg(v.shape);
    }
}

} // verus!

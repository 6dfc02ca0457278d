//! The three traversals of an array: its elements in row-major order, the
//! extent and stride of each axis, and its slabs along one axis.
use crate::array::{valid_ranges, Array, ArrayModel, AxisRange};
use crate::model::{
    ints, lemma_in_bounds_rank, lemma_odometer, lemma_rank_bounds, lemma_rank_zeros,
    lemma_size_nonneg, lemma_size_pos, lemma_unrank_rank, rank, size, zeros,
};
use vstd::prelude::*;

verus! {

/// The `(extent, stride)` pair of each axis, axis 0 first.
pub open spec fn axis_pairs(shape: Seq<usize>, strides: Seq<usize>) -> Seq<(usize, usize)> {
    Seq::new(shape.len(), |i: int| (shape[i], strides[i]))
}

impl<'a, T: Clone, const D: usize> Array<'a, T, D> {
    /// Every element, in row-major order.
    pub fn flat(&self) -> (r: Iter<'_, T, D>)
        requires
            self.wf(),
        ensures
            r.wf(),
            r.source() == self@,
            r.remaining() == self@.elements(),
    {
        Iter::init(self)
    }

    /// The extent and stride of each axis.
    pub fn axes(&self) -> (r: Axes<'_, D>)
        ensures
            r.wf(),
            r.remaining().len() == D,
            forall|i: int|
                0 <= i < D ==> #[trigger] r.remaining()[i].0 as int == self@.shape[i]
                    && r.remaining()[i].1 as int == self@.strides[i],
    {
        let shape = self.shape();
        let strides = self.strides();
        let r = Axes::init(shape, strides);
        proof {
            assert forall|i: int| 0 <= i < D implies #[trigger] r.remaining()[i].0 as int
                == self@.shape[i] && r.remaining()[i].1 as int == self@.strides[i] by {
                assert(ints(shape@)[i] == shape@[i] as int);
                assert(ints(strides@)[i] == strides@[i] as int);
            }
        }
        r
    }

    /// The slabs along `axis`: one view per position on it.
    pub fn axis_view(&self, axis: usize) -> (r: AxisView<'_, T, D>)
        requires
            self.wf(),
            axis < D,
        ensures
            r.wf(),
            r.source() == self@,
            r.remaining() == self@.slabs(axis as int),
    {
        AxisView::init(self, axis)
    }
}

/// Row-major traversal of the elements of an array.
pub struct Iter<'a, T: Clone, const D: usize> {
    array: &'a Array<'a, T, D>,
    indices: [usize; D],
}

impl<'a, T: Clone, const D: usize> Iter<'a, T, D> {
    /// The array traversed.
    pub closed spec fn source(&self) -> ArrayModel<T> {
        self.array@
    }

    /// How many elements have been produced.
    pub closed spec fn position(&self) -> int {
        rank(self.array@.shape, ints(self.indices@))
    }

    /// The elements still to come, in order.
    pub open spec fn remaining(&self) -> Seq<T> {
        self.source().elements().skip(self.position())
    }

    pub closed spec fn wf(&self) -> bool {
        let s = self.array@.shape;
        let x = ints(self.indices@);
        &&& self.array.wf()
        &&& size(s) == 0 ==> x == zeros(D as nat)
        &&& size(s) > 0 ==> {
            &&& forall|i: int| 1 <= i < D ==> #[trigger] x[i] < s[i]
            &&& 0 <= rank(s, x) <= size(s)
        }
    }

    fn init(array: &'a Array<'a, T, D>) -> (r: Self)
        requires
            array.wf(),
        ensures
            r.wf(),
            r.source() == array@,
            r.position() == 0,
    {
        let r = Iter { array, indices: [0; D] };
        proof {
            let s = array@.shape;
            assert(ints(r.indices@) =~= zeros(D as nat));
            lemma_rank_zeros(s);
            lemma_size_nonneg(s);
            lemma_size_pos(s);
            if size(s) > 0 {
                assert forall|i: int| 1 <= i < D implies #[trigger] ints(r.indices@)[i] < s[i] by {
                    assert(s[i] > 0);
                }
            }
        }
        r
    }

    /// Advances the index counter by one row-major step.
    fn increment_indices(&mut self)
        requires
            D >= 1,
            old(self).array.wf(),
            forall|i: int| 0 <= i < D ==> #[trigger] old(self).indices[i] < old(self).array@.shape[i],
        ensures
            final(self).array == old(self).array,
            rank(final(self).array@.shape, ints(final(self).indices@)) == rank(
                old(self).array@.shape,
                ints(old(self).indices@),
            ) + 1,
            forall|i: int|
                1 <= i < D ==> #[trigger] final(self).indices[i] < final(self).array@.shape[i],
    {
        self.increment_idx_at_axis(D - 1);
        proof {
            let s = self.array@.shape;
            assert(s.take(D as int) =~= s);
            assert(ints(self.indices@).take(D as int) =~= ints(self.indices@));
            assert(ints(old(self).indices@).take(D as int) =~= ints(old(self).indices@));
        }
    }

    /// Adds one at `axis`; a digit that reaches its extent returns to zero and
    /// carries into the next more significant axis. Axis 0 never wraps.
    fn increment_idx_at_axis(&mut self, axis: usize)
        requires
            axis < D,
            old(self).array.wf(),
            forall|i: int|
                0 <= i <= axis ==> #[trigger] old(self).indices[i] < old(self).array@.shape[i],
        ensures
            final(self).array == old(self).array,
            rank(
                final(self).array@.shape.take(axis + 1),
                ints(final(self).indices@).take(axis + 1),
            ) == rank(old(self).array@.shape.take(axis + 1), ints(old(self).indices@).take(axis + 1))
                + 1,
            forall|i: int|
                1 <= i <= axis ==> #[trigger] final(self).indices[i] < final(self).array@.shape[i],
            forall|i: int| axis < i < D ==> #[trigger] final(self).indices[i] == old(self).indices[i],
    {
        let shape = self.array.shape();
        let mut ax: usize = axis;
        while ax != 0 && self.indices[ax] + 1 >= shape[ax]
            invariant
                ax <= axis < D,
                self.array == old(self).array,
                ints(shape@) == self.array@.shape,
                forall|i: int|
                    0 <= i <= axis ==> #[trigger] old(self).indices[i] < old(self).array@.shape[i],
                forall|i: int| 0 <= i <= ax ==> #[trigger] self.indices[i] == old(self).indices[i],
                forall|i: int|
                    ax < i <= axis ==> #[trigger] self.indices[i] == 0 && old(self).indices[i] + 1
                        == shape[i],
                forall|i: int| axis < i < D ==> #[trigger] self.indices[i] == old(self).indices[i],
            decreases ax,
        {
            self.indices[ax] = 0;
            ax -= 1;
        }
        proof {
            assert(ints(shape@)[ax as int] == shape@[ax as int] as int);
        }
        self.indices[ax] = self.indices[ax] + 1;
        proof {
            let k = axis + 1;
            let s = self.array@.shape.take(k);
            let o = ints(old(self).indices@).take(k);
            let n = ints(self.indices@).take(k);
            assert forall|i: int| ax < i < s.len() implies #[trigger] n[i] == 0 && o[i] == s[i] - 1
                && s[i] > 0 by {
                assert(ints(shape@)[i] == shape@[i] as int);
                assert(self.indices[i] == 0);
                assert(old(self).indices[i] + 1 == shape[i]);
                assert(n[i] == self.indices[i] as int);
                assert(o[i] == old(self).indices[i] as int);
            }
            assert forall|i: int| 0 <= i < ax implies #[trigger] n[i] == o[i] by {}
            lemma_odometer(s, o, n, ax as int);
            assert forall|i: int| 1 <= i <= axis implies #[trigger] self.indices[i]
                < self.array@.shape[i] by {
                assert(ints(shape@)[i] == shape@[i] as int);
            }
        }
    }

    /// The next element, or `None` once every element has been produced; from
    /// then on the counter stays where it is. A zero-dimensional array has no
    /// axis to count along, so `D` is at least 1.
    pub fn next(&mut self) -> (r: Option<&'a T>)
        requires
            D >= 1,
            old(self).wf(),
        ensures
            final(self).wf(),
            final(self).source() == old(self).source(),
            match r {
                Some(v) => {
                    &&& old(self).remaining().len() > 0
                    &&& *v == old(self).remaining()[0]
                    &&& final(self).remaining() == old(self).remaining().drop_first()
                },
                None => {
                    &&& old(self).remaining().len() == 0
                    &&& final(self).remaining() == old(self).remaining()
                },
            },
    {
        let ghost m = self.array@;
        let ghost x = ints(self.indices@);
        let ghost pos = rank(m.shape, x);
        proof {
            lemma_size_nonneg(m.shape);
            if size(m.shape) > 0 {
                lemma_in_bounds_rank(m.shape, x);
            } else {
                lemma_rank_zeros(m.shape);
                lemma_size_pos(m.shape);
                if crate::model::in_bounds(m.shape, x) {
                    assert forall|i: int| 0 <= i < D implies #[trigger] m.shape[i] > 0 by {
                        assert(x[i] < m.shape[i]);
                    }
                }
            }
            assert(crate::model::in_bounds(m.shape, x) <==> pos < size(m.shape));
        }
        let item = self.array.get(self.indices);
        if item.is_some() {
            proof {
                lemma_unrank_rank(m.shape, x);
                lemma_rank_bounds(m.shape, x);
                assert forall|i: int| 0 <= i < D implies #[trigger] self.indices[i]
                    < self.array@.shape[i] by {
                    assert(x[i] < m.shape[i]);
                }
            }
            self.increment_indices();
            proof {
                assert(self.remaining() =~= old(self).remaining().drop_first());
            }
        }
        item
    }
}

/// The `(extent, stride)` pair of each axis, axis 0 first.
pub struct Axes<'a, const D: usize> {
    axis: usize,
    shape: &'a [usize; D],
    strides: &'a [usize; D],
}

impl<'a, const D: usize> Axes<'a, D> {
    pub closed spec fn wf(&self) -> bool {
        self.axis <= D
    }

    /// The pairs still to come, in order.
    pub closed spec fn remaining(&self) -> Seq<(usize, usize)> {
        axis_pairs(self.shape@, self.strides@).skip(self.axis as int)
    }

    pub fn init(shape: &'a [usize; D], strides: &'a [usize; D]) -> (r: Self)
        ensures
            r.wf(),
            r.remaining() == axis_pairs(shape@, strides@),
    {
        let r = Axes { axis: 0, shape, strides };
        proof {
            assert(r.remaining() =~= axis_pairs(shape@, strides@));
        }
        r
    }

    /// The next pair, or `None` after the last axis; the cursor stops there.
    pub fn next(&mut self) -> (r: Option<(usize, usize)>)
        requires
            old(self).wf(),
        ensures
            final(self).wf(),
            r == if old(self).remaining().len() > 0 {
                Some(old(self).remaining()[0])
            } else {
                None
            },
            final(self).remaining() == if old(self).remaining().len() > 0 {
                old(self).remaining().drop_first()
            } else {
                old(self).remaining()
            },
    {
        if self.axis < D {
            let pair = (self.shape[self.axis], self.strides[self.axis]);
            self.axis += 1;
            proof {
                assert(self.remaining() =~= old(self).remaining().drop_first());
            }
            Some(pair)
        } else {
            None
        }
    }
}

/// The slabs of an array along one axis: for each position on that axis, the
/// view with the axis fixed there and every other axis whole.
pub struct AxisView<'a, T: Clone, const D: usize> {
    array: &'a Array<'a, T, D>,
    slice: [AxisRange; D],
    axis: usize,
    idx: usize,
}

impl<'a, T: Clone, const D: usize> AxisView<'a, T, D> {
    /// The array traversed.
    pub closed spec fn source(&self) -> ArrayModel<T> {
        self.array@
    }

    /// The axis along which the slabs are taken.
    pub closed spec fn axis(&self) -> int {
        self.axis as int
    }

    /// The slabs still to come, in order.
    pub closed spec fn remaining(&self) -> Seq<ArrayModel<T>> {
        self.array@.slabs(self.axis as int).skip(self.idx as int)
    }

    pub closed spec fn wf(&self) -> bool {
        &&& self.array.wf()
        &&& self.axis < D
        &&& self.idx <= self.array@.shape[self.axis as int]
        &&& forall|i: int|
            0 <= i < D && i != self.axis ==> #[trigger] self.slice[i] == (AxisRange {
                start: 0,
                end: self.array@.shape[i] as usize,
            })
    }

    pub fn init(array: &'a Array<'a, T, D>, axis: usize) -> (r: AxisView<'a, T, D>)
        requires
            array.wf(),
            axis < D,
        ensures
            r.wf(),
            r.source() == array@,
            r.axis() == axis,
            r.remaining() == array@.slabs(axis as int),
    {
        let mut slice = [AxisRange { start: 0, end: 0 }; D];
        let mut axes = array.axes();
        let ghost pairs = axes.remaining();
        let mut i: usize = 0;
        loop
            invariant
                i <= D,
                axes.wf(),
                pairs.len() == D,
                forall|j: int|
                    0 <= j < D ==> #[trigger] pairs[j].0 as int == array@.shape[j],
                axes.remaining() == pairs.skip(i as int),
                forall|j: int|
                    0 <= j < i ==> #[trigger] slice[j] == (AxisRange {
                        start: 0,
                        end: array@.shape[j] as usize,
                    }),
            ensures
                i == D,
                forall|j: int|
                    0 <= j < D ==> #[trigger] slice[j] == (AxisRange {
                        start: 0,
                        end: array@.shape[j] as usize,
                    }),
            decreases D - i,
        {
            match axes.next() {
                Some((extent, _)) => {
                    proof {
                        assert(extent as int == array@.shape[i as int]);
                    }
                    slice[i] = AxisRange { start: 0, end: extent };
                    i += 1;
                    proof {
                        assert(axes.remaining() =~= pairs.skip(i as int));
                    }
                },
                None => break,
            }
        }
        let r = AxisView { array, slice, axis, idx: 0 };
        proof {
            assert(r.remaining() =~= array@.slabs(axis as int));
        }
        r
    }

    /// The next slab, or `None` once every position on the axis has been
    /// visited.
    pub fn next(&mut self) -> (r: Option<Array<'a, T, D>>)
        requires
            old(self).wf(),
        ensures
            final(self).wf(),
            final(self).source() == old(self).source(),
            final(self).axis() == old(self).axis(),
            match r {
                Some(v) => {
                    &&& old(self).remaining().len() > 0
                    &&& v.wf()
                    &&& v@ == old(self).remaining()[0]
                    &&& final(self).remaining() == old(self).remaining().drop_first()
                },
                None => {
                    &&& old(self).remaining().len() == 0
                    &&& final(self).remaining() == old(self).remaining()
                },
            },
    {
        let ghost m = self.array@;
        let ghost k = self.idx as int;
        let ghost a = self.axis as int;
        let shape = self.array.shape();
        proof {
            assert(ints(shape@)[a] == shape@[a] as int);
        }
        if self.idx < shape[self.axis] {
            self.slice[self.axis] = AxisRange { start: self.idx, end: self.idx + 1 };
            proof {
                assert forall|i: int| 0 <= i < D implies #[trigger] self.slice[i].start
                    <= self.slice[i].end <= m.shape[i] by {
                    if i != a {
                        assert(self.slice[i] == old(self).slice[i]);
                    }
                }
                assert(valid_ranges(self.slice@, m.shape));
            }
            let view = self.array.slice(&self.slice);
            self.idx += 1;
            proof {
                let st = crate::array::starts(self.slice@);
                let en = crate::array::ends(self.slice@);
                assert(st =~= crate::array::slab_starts(m.shape, a, k));
                assert(en =~= crate::array::slab_ends(m.shape, a, k));
                assert(view@ == m.slab(a, k));
                assert(self.remaining() =~= old(self).remaining().drop_first());
            }
            Some(view)
        } else {
            None
        }
    }
}

} // verus!
